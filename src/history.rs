//! Loading every device log of the data directory into its time series.
use vstd::prelude::*;
use crate::device_log::{
    contents_log, line_samples, lines_of, load_device_log, text_log, DeviceLog,
};
use crate::sample::{line_sample, SampleModel};
use crate::text::{next_sep, NEWLINE, TAB};

verus! {

/// A selected log file and the bytes that were read from it.
pub struct SourceFile {
    pub path: String,
    pub contents: Vec<u8>,
}

/// The time series of one log file, under the file's path.
pub struct FileLog {
    pub path: String,
    pub log: DeviceLog,
}

/// What a load returns for the files: nothing where the platform lacks the data
/// source; otherwise one entry per file, in order, under the file's path, holding
/// the time series of its contents (an empty one where they hold no sample).
pub open spec fn loaded(source_available: bool, files: Seq<SourceFile>, r: Seq<FileLog>) -> bool {
    if !source_available {
        r.len() == 0
    } else {
        r.len() == files.len() && forall|i: int|
            0 <= i < r.len() ==> {
                &&& (#[trigger] r[i]).path@ == files[i].path@
                &&& r[i].log.wf()
                &&& r[i].log@ == contents_log(files[i].contents@)
            }
    }
}

/// Each entry as a value: the path and the time series.
pub open spec fn entry_views(r: Seq<FileLog>) -> Seq<(Seq<char>, Map<i64, SampleModel>)> {
    r.map_values(|e: FileLog| (e.path@, e.log@))
}

/// Loads the historic data of the selected files. `source_available` says whether
/// this platform has the data source; where it does not, the result is empty.
pub fn load_data(source_available: bool, files: &Vec<SourceFile>) -> (r: Vec<FileLog>)
    ensures
        loaded(source_available, files@, r@),
{
    let mut r: Vec<FileLog> = Vec::new();
    if !source_available {
        return r;
    }
    let mut i: usize = 0;
    while i < files.len()
        invariant
            0 <= i <= files@.len(),
            r@.len() == i,
            forall|k: int|
                0 <= k < i ==> {
                    &&& (#[trigger] r@[k]).path@ == files@[k].path@
                    &&& r@[k].log.wf()
                    &&& r@[k].log@ == contents_log(files@[k].contents@)
                },
        decreases files@.len() - i,
    {
        let log = load_device_log(files[i].contents.as_slice());
        r.push(FileLog { path: files[i].path.clone(), log });
        i = i + 1;
    }
    r
}

/// Loading the same files twice gives equal results: every result that a load
/// may return for given files has the same paths and time series.
pub proof fn load_is_repeatable(
    source_available: bool,
    files: Seq<SourceFile>,
    r1: Seq<FileLog>,
    r2: Seq<FileLog>,
)
    requires
        loaded(source_available, files, r1),
        loaded(source_available, files, r2),
    ensures
        entry_views(r1) == entry_views(r2),
{
    assert(entry_views(r1) =~= entry_views(r2));
}

/// An empty file still has its entry in a load, and that entry's time series is
/// empty.
pub proof fn empty_file_loads_empty_log(files: Seq<SourceFile>, r: Seq<FileLog>, i: int)
    requires
        loaded(true, files, r),
        0 <= i < files.len(),
        files[i].contents@.len() == 0,
    ensures
        r[i].path@ == files[i].path@,
        r[i].log@ == Map::<i64, SampleModel>::empty(),
{
    let c = files[i].contents@;
    let line = c.subrange(0, 0);
    assert(next_sep(c, NEWLINE, 0) == 0);
    assert(lines_of(c) == seq![line]);
    assert(next_sep(line, TAB, 0) == 0);
    assert(line_sample(line) is None);
    assert(seq![line].drop_last() =~= Seq::<Seq<u8>>::empty());
    assert(seq![line].last() == line);
    assert(line_samples(Seq::<Seq<u8>>::empty()) == Seq::<SampleModel>::empty());
    assert(line_samples(seq![line]) =~= Seq::<SampleModel>::empty());
    assert(text_log(c) =~= Map::<i64, SampleModel>::empty());
}

/// Where the platform lacks the data source, a load returns no entry at all.
pub proof fn unavailable_source_loads_nothing(files: Seq<SourceFile>, r: Seq<FileLog>)
    requires
        loaded(false, files, r),
    ensures
        entry_views(r) == Seq::<(Seq<char>, Map<i64, SampleModel>)>::empty(),
{
    assert(entry_views(r) =~= Seq::<(Seq<char>, Map<i64, SampleModel>)>::empty());
}

} // verus!
