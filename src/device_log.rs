//! The time series of one log file: timestamp to sample, last write wins.
use vstd::prelude::*;
use vstd::utf8::valid_utf8;
use crate::sample::{line_sample, parse_line, DataValue, SampleModel};
use crate::text::{find_sep, lemma_next_sep_bounds, next_sep, NEWLINE};

verus! {

/// No two samples share a timestamp.
pub open spec fn keys_distinct(s: Seq<SampleModel>) -> bool {
    forall|i: int, j: int|
        0 <= i < j < s.len() ==> (#[trigger] s[i]).date_time != (#[trigger] s[j]).date_time
}

/// The map that results from inserting the samples in order, each under its
/// timestamp, a later one replacing an earlier one.
pub open spec fn log_of(s: Seq<SampleModel>) -> Map<i64, SampleModel>
    decreases s.len(),
{
    if s.len() == 0 {
        Map::empty()
    } else {
        log_of(s.drop_last()).insert(s.last().date_time, s.last())
    }
}

pub open spec fn models(v: Seq<DataValue>) -> Seq<SampleModel> {
    v.map_values(|d: DataValue| d@)
}

proof fn lemma_log_of_dom(s: Seq<SampleModel>, k: i64)
    ensures
        log_of(s).dom().finite(),
        log_of(s).contains_key(k) <==> exists|i: int| 0 <= i < s.len() && s[i].date_time == k,
    decreases s.len(),
{
    if s.len() > 0 {
        lemma_log_of_dom(s.drop_last(), k);
        if log_of(s.drop_last()).contains_key(k) {
            let i = choose|i: int| 0 <= i < s.drop_last().len() && s.drop_last()[i].date_time == k;
            assert(s[i].date_time == k);
        }
        if exists|i: int| 0 <= i < s.len() && s[i].date_time == k {
            let i = choose|i: int| 0 <= i < s.len() && s[i].date_time == k;
            if i < s.len() - 1 {
                assert(s.drop_last()[i].date_time == k);
            }
        }
    }
}

proof fn lemma_log_of_len(s: Seq<SampleModel>)
    requires
        keys_distinct(s),
    ensures
        log_of(s).dom().len() == s.len(),
    decreases s.len(),
{
    if s.len() > 0 {
        let p = s.drop_last();
        assert(keys_distinct(p)) by {
            assert forall|i: int, j: int| 0 <= i < j < p.len() implies (#[trigger] p[i]).date_time
                != (#[trigger] p[j]).date_time by {
                assert(p[i] == s[i] && p[j] == s[j]);
            }
        }
        lemma_log_of_len(p);
        lemma_log_of_dom(p, s.last().date_time);
        if log_of(p).contains_key(s.last().date_time) {
            let i = choose|i: int| 0 <= i < p.len() && p[i].date_time == s.last().date_time;
            assert(s[i] == p[i]);
        }
    }
}

proof fn lemma_log_of_index(s: Seq<SampleModel>, i: int)
    requires
        keys_distinct(s),
        0 <= i < s.len(),
    ensures
        log_of(s).contains_key(s[i].date_time),
        log_of(s)[s[i].date_time] == s[i],
    decreases s.len(),
{
    if i < s.len() - 1 {
        let p = s.drop_last();
        assert(keys_distinct(p)) by {
            assert forall|a: int, b: int| 0 <= a < b < p.len() implies (#[trigger] p[a]).date_time
                != (#[trigger] p[b]).date_time by {
                assert(p[a] == s[a] && p[b] == s[b]);
            }
        }
        assert(p[i] == s[i]);
        lemma_log_of_index(p, i);
    }
}

proof fn lemma_log_of_update(s: Seq<SampleModel>, j: int, v: SampleModel)
    requires
        keys_distinct(s),
        0 <= j < s.len(),
        s[j].date_time == v.date_time,
    ensures
        keys_distinct(s.update(j, v)),
        log_of(s.update(j, v)) == log_of(s).insert(v.date_time, v),
    decreases s.len(),
{
    let u = s.update(j, v);
    assert(keys_distinct(u)) by {
        assert forall|a: int, b: int| 0 <= a < b < u.len() implies (#[trigger] u[a]).date_time
            != (#[trigger] u[b]).date_time by {
            assert(u[a].date_time == s[a].date_time && u[b].date_time == s[b].date_time);
        }
    }
    let p = s.drop_last();
    if j == s.len() - 1 {
        assert(u.drop_last() =~= p);
        assert(log_of(u) =~= log_of(s).insert(v.date_time, v));
    } else {
        assert(keys_distinct(p)) by {
            assert forall|a: int, b: int| 0 <= a < b < p.len() implies (#[trigger] p[a]).date_time
                != (#[trigger] p[b]).date_time by {
                assert(p[a] == s[a] && p[b] == s[b]);
            }
        }
        assert(u.drop_last() =~= p.update(j, v));
        lemma_log_of_update(p, j, v);
        assert(s.last().date_time != v.date_time);
        assert(u.last() == s.last());
        assert(log_of(u) =~= log_of(s).insert(v.date_time, v));
    }
}

/// The time series of one log file: at most one sample per timestamp, kept in the
/// order in which the timestamps first came.
pub struct DeviceLog {
    samples: Vec<DataValue>,
}

impl View for DeviceLog {
    type V = Map<i64, SampleModel>;

    closed spec fn view(&self) -> Map<i64, SampleModel> {
        log_of(models(self.samples@))
    }
}

impl DeviceLog {
    pub closed spec fn wf(&self) -> bool {
        keys_distinct(models(self.samples@))
    }

    /// An empty log.
    pub fn new() -> (r: DeviceLog)
        ensures
            r.wf(),
            r@ == Map::<i64, SampleModel>::empty(),
    {
        let r = DeviceLog { samples: Vec::new() };
        assert(models(r.samples@) =~= Seq::<SampleModel>::empty());
        r
    }

    /// Puts `v` under its timestamp, replacing the sample that was there.
    pub fn insert(&mut self, v: DataValue)
        requires
            old(self).wf(),
        ensures
            final(self).wf(),
            final(self)@ == old(self)@.insert(v@.date_time, v@),
    {
        let ghost s = models(self.samples@);
        let key = v.date_time.to_unix();
        let mut i: usize = 0;
        while i < self.samples.len()
            invariant
                0 <= i <= self.samples@.len(),
                s == models(self.samples@),
                self.samples@ == old(self).samples@,
                keys_distinct(s),
                key == v@.date_time,
                forall|k: int| 0 <= k < i ==> (#[trigger] s[k]).date_time != key,
            decreases self.samples@.len() - i,
        {
            assert(s[i as int] == self.samples@[i as int]@);
            if self.samples[i].date_time.to_unix() == key {
                assert(s[i as int] == self.samples@[i as int]@);
                proof {
                    lemma_log_of_update(s, i as int, v@);
                }
                let ghost vm = v@;
                self.samples.set(i, v);
                assert(models(self.samples@) =~= s.update(i as int, vm));
                return;
            }
            i = i + 1;
        }
        self.samples.push(v);
        assert(models(self.samples@) =~= s.push(v@));
        assert(models(self.samples@).drop_last() =~= s);
        assert(keys_distinct(models(self.samples@))) by {
            let t = models(self.samples@);
            assert forall|a: int, b: int| 0 <= a < b < t.len() implies (#[trigger] t[a]).date_time
                != (#[trigger] t[b]).date_time by {
                if b == t.len() - 1 {
                    assert(t[a] == s[a]);
                } else {
                    assert(t[a] == s[a] && t[b] == s[b]);
                }
            }
        }
    }

    /// How many samples the log holds.
    pub fn len(&self) -> (r: usize)
        requires
            self.wf(),
        ensures
            r == self@.dom().len(),
    {
        proof {
            lemma_log_of_len(models(self.samples@));
        }
        self.samples.len()
    }

    /// The sample at Unix time `secs`, if any.
    pub fn get(&self, secs: i64) -> (r: Option<&DataValue>)
        requires
            self.wf(),
        ensures
            r is Some <==> self@.contains_key(secs),
            r matches Some(v) ==> self@[secs] == v@,
    {
        let ghost s = models(self.samples@);
        let mut i: usize = 0;
        while i < self.samples.len()
            invariant
                0 <= i <= self.samples@.len(),
                s == models(self.samples@),
                keys_distinct(s),
                forall|k: int| 0 <= k < i ==> (#[trigger] s[k]).date_time != secs,
            decreases self.samples@.len() - i,
        {
            assert(s[i as int] == self.samples@[i as int]@);
            if self.samples[i].date_time.to_unix() == secs {
                proof {
                    lemma_log_of_index(s, i as int);
                }
                return Some(&self.samples[i]);
            }
            i = i + 1;
        }
        proof {
            lemma_log_of_dom(s, secs);
        }
        None
    }

    /// The samples, in the order in which their timestamps first came.
    pub fn samples(&self) -> (r: &Vec<DataValue>)
        requires
            self.wf(),
        ensures
            keys_distinct(models(r@)),
            log_of(models(r@)) == self@,
    {
        &self.samples
    }
}

/// The lines of a text from position `from`: the text split at each newline.
pub open spec fn lines_from(s: Seq<u8>, from: int) -> Seq<Seq<u8>>
    decreases s.len() - from,
{
    let e = next_sep(s, NEWLINE, from);
    if from < 0 || from > s.len() {
        Seq::empty()
    } else if e >= s.len() || e < from {
        seq![s.subrange(from, s.len() as int)]
    } else {
        seq![s.subrange(from, e)] + lines_from(s, e + 1)
    }
}

/// The lines of a text. A text without a newline is one line; a newline at the
/// end leaves an empty last line.
pub open spec fn lines_of(s: Seq<u8>) -> Seq<Seq<u8>> {
    lines_from(s, 0)
}

/// The samples that the lines hold, in order.
pub open spec fn line_samples(lines: Seq<Seq<u8>>) -> Seq<SampleModel>
    decreases lines.len(),
{
    if lines.len() == 0 {
        Seq::empty()
    } else {
        let rest = line_samples(lines.drop_last());
        match line_sample(lines.last()) {
            Some(v) => rest.push(v),
            None => rest,
        }
    }
}

/// The time series that a log text holds.
pub open spec fn text_log(s: Seq<u8>) -> Map<i64, SampleModel> {
    log_of(line_samples(lines_of(s)))
}

proof fn lemma_last_line_wins(lines: Seq<Seq<u8>>, i: int)
    requires
        0 <= i < lines.len(),
        line_sample(lines[i]) is Some,
        forall|j: int|
            i < j < lines.len() && (#[trigger] line_sample(lines[j])) is Some ==> line_sample(
                lines[j],
            )->0.date_time != line_sample(lines[i])->0.date_time,
    ensures
        log_of(line_samples(lines)).contains_key(line_sample(lines[i])->0.date_time),
        log_of(line_samples(lines))[line_sample(lines[i])->0.date_time] == line_sample(
            lines[i],
        )->0,
    decreases lines.len(),
{
    let p = lines.drop_last();
    let rest = line_samples(p);
    if i < lines.len() - 1 {
        assert(p[i] == lines[i]);
        assert forall|j: int|
            i < j < p.len() && (#[trigger] line_sample(p[j])) is Some implies line_sample(
                p[j],
            )->0.date_time != line_sample(p[i])->0.date_time by {
            assert(p[j] == lines[j]);
        }
        lemma_last_line_wins(p, i);
        if line_sample(lines.last()) is Some {
            assert(line_sample(lines[lines.len() - 1]) is Some);
            assert(rest.push(line_sample(lines.last())->0).drop_last() =~= rest);
        }
    } else {
        assert(rest.push(line_sample(lines.last())->0).drop_last() =~= rest);
    }
}

/// A later sample replaces an earlier one at the same time: the sample of a text's
/// line stands in the text's time series unless a later line holds a sample at the
/// same time.
pub proof fn last_line_wins(text: Seq<u8>, i: int)
    requires
        0 <= i < lines_of(text).len(),
        line_sample(lines_of(text)[i]) is Some,
        forall|j: int|
            i < j < lines_of(text).len() && (#[trigger] line_sample(lines_of(text)[j])) is Some
                ==> line_sample(lines_of(text)[j])->0.date_time != line_sample(
                lines_of(text)[i],
            )->0.date_time,
    ensures
        text_log(text).contains_key(line_sample(lines_of(text)[i])->0.date_time),
        text_log(text)[line_sample(lines_of(text)[i])->0.date_time] == line_sample(
            lines_of(text)[i],
        )->0,
{
    lemma_last_line_wins(lines_of(text), i);
}

/// Parses a log text, given as its bytes, into the time series it holds.
pub fn parse_log(buf: &[u8]) -> (r: DeviceLog)
    ensures
        r.wf(),
        r@ == text_log(buf@),
{
    let ghost s = buf@;
    let mut log = DeviceLog::new();
    let ghost mut done: Seq<Seq<u8>> = Seq::empty();
    let mut pos: usize = 0;
    let mut finished = false;
    assert(buf@.subrange(0, buf@.len() as int) =~= s);
    while !finished
        invariant
            s == buf@,
            pos <= buf@.len(),
            log.wf(),
            log@ == log_of(line_samples(done)),
            finished ==> done == lines_of(s),
            !finished ==> done + lines_from(s, pos as int) == lines_of(s),
        decreases buf@.len() - pos + (if finished { 0int } else { 1int }),
    {
        let e = find_sep(buf, NEWLINE, 0, pos, buf.len());
        assert(buf@.subrange(0, buf@.len() as int) =~= s);
        proof {
            lemma_next_sep_bounds(s, NEWLINE, pos as int);
        }
        let ghost line = s.subrange(pos as int, e as int);
        assert(buf@.subrange(pos as int, e as int) == line);
        match parse_line(buf, pos, e) {
            Some(v) => {
                let ghost vm = v@;
                log.insert(v);
                assert(line_samples(done.push(line)) == line_samples(done).push(vm)) by {
                    assert(done.push(line).drop_last() =~= done);
                }
                assert(line_samples(done).push(vm).drop_last() =~= line_samples(done));
            },
            None => {
                assert(line_samples(done.push(line)) == line_samples(done)) by {
                    assert(done.push(line).drop_last() =~= done);
                }
            },
        }
        proof {
            assert(done.push(line).drop_last() =~= done);
            if e >= buf.len() {
                assert(lines_from(s, pos as int) == seq![line]);
                assert(done.push(line) =~= done + seq![line]);
            } else {
                assert(lines_from(s, pos as int) == seq![line] + lines_from(s, e + 1));
                assert(done.push(line) + lines_from(s, e + 1) =~= done + (seq![line]
                    + lines_from(s, e + 1)));
            }
            done = done.push(line);
        }
        if e >= buf.len() {
            finished = true;
        } else {
            pos = e + 1;
        }
    }
    log
}

/// Relies on `std::str::from_utf8`: it succeeds exactly on well-formed UTF-8.
#[verifier::external_body]
fn is_utf8(b: &[u8]) -> (r: bool)
    ensures
        r == valid_utf8(b@),
{
    std::str::from_utf8(b).is_ok()
}

/// The time series that a file's contents hold. Contents that are not UTF-8 text
/// hold none.
pub open spec fn contents_log(c: Seq<u8>) -> Map<i64, SampleModel> {
    if valid_utf8(c) {
        text_log(c)
    } else {
        Map::empty()
    }
}

/// Parses a file's contents into the time series they hold.
pub fn load_device_log(contents: &[u8]) -> (r: DeviceLog)
    ensures
        r.wf(),
        r@ == contents_log(contents@),
{
    if is_utf8(contents) {
        parse_log(contents)
    } else {
        DeviceLog::new()
    }
}

} // verus!
