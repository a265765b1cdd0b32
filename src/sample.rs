//! One line of a power-state log: its fields, and the sample they hold.
use vstd::prelude::*;
use crate::text::{
    all_digits, all_digits_in, copy_range, find_sep, lowered, next_sep, parse_i64, parse_i64_in,
    range_is, range_is_folded, TAB,
};

verus! {

/// The bytes after an optional leading `+` or `-`.
pub open spec fn unsigned_part(f: Seq<u8>) -> Seq<u8> {
    if f.len() > 0 && (f[0] == 43u8 || f[0] == 45u8) {
        f.drop_first()
    } else {
        f
    }
}

/// The digits of a decimal number, with at most one `.` and at least one digit.
pub open spec fn is_mantissa(m: Seq<u8>) -> bool {
    let p = next_sep(m, 46u8, 0);
    if p >= m.len() {
        m.len() > 0 && all_digits(m)
    } else {
        all_digits(m.subrange(0, p)) && all_digits(m.subrange(p + 1, m.len() as int)) && m.len()
            > 1
    }
}

/// What follows the exponent mark: an optional sign, then one or more digits.
pub open spec fn is_exponent(x: Seq<u8>) -> bool {
    unsigned_part(x).len() > 0 && all_digits(unsigned_part(x))
}

/// A mantissa, optionally followed by `e` or `E` and an exponent.
pub open spec fn is_number(b: Seq<u8>) -> bool {
    let e = next_sep(lowered(b), 101u8, 0);
    if e >= b.len() {
        is_mantissa(b)
    } else {
        is_mantissa(b.subrange(0, e)) && is_exponent(b.subrange(e + 1, b.len() as int))
    }
}

pub open spec fn inf_word() -> Seq<u8> {
    seq![105u8, 110u8, 102u8]
}

pub open spec fn infinity_word() -> Seq<u8> {
    seq![105u8, 110u8, 102u8, 105u8, 110u8, 105u8, 116u8, 121u8]
}

pub open spec fn nan_word() -> Seq<u8> {
    seq![110u8, 97u8, 110u8]
}

/// A floating-point literal as the standard library reads one: an optional sign,
/// then `inf`, `infinity` or `nan` in any case, or a decimal number with an
/// optional exponent; no white space.
pub open spec fn is_float_text(f: Seq<u8>) -> bool {
    let b = unsigned_part(f);
    lowered(b) == inf_word() || lowered(b) == infinity_word() || lowered(b) == nan_word()
        || is_number(b)
}

fn is_mantissa_in(buf: &[u8], lo: usize, hi: usize) -> (r: bool)
    requires
        lo <= hi <= buf@.len(),
    ensures
        r == is_mantissa(buf@.subrange(lo as int, hi as int)),
{
    let ghost m = buf@.subrange(lo as int, hi as int);
    let p = find_sep(buf, 46, lo, lo, hi);
    if p >= hi {
        hi > lo && all_digits_in(buf, lo, hi)
    } else {
        assert(m.subrange(0, p - lo) =~= buf@.subrange(lo as int, p as int));
        assert(m.subrange(p - lo + 1, m.len() as int) =~= buf@.subrange(p + 1, hi as int));
        all_digits_in(buf, lo, p) && all_digits_in(buf, p + 1, hi) && hi - lo > 1
    }
}

fn is_exponent_in(buf: &[u8], lo: usize, hi: usize) -> (r: bool)
    requires
        lo <= hi <= buf@.len(),
    ensures
        r == is_exponent(buf@.subrange(lo as int, hi as int)),
{
    let ghost x = buf@.subrange(lo as int, hi as int);
    if lo < hi && (buf[lo] == 43 || buf[lo] == 45) {
        assert(x[0] == buf@[lo as int]);
        assert(x.drop_first() =~= buf@.subrange(lo + 1, hi as int));
        lo + 1 < hi && all_digits_in(buf, lo + 1, hi)
    } else {
        if lo < hi {
            assert(x[0] == buf@[lo as int]);
        }
        lo < hi && all_digits_in(buf, lo, hi)
    }
}

/// The first `e` or `E` in `buf[lo..hi]`, or `hi`.
fn find_exponent_mark(buf: &[u8], lo: usize, hi: usize) -> (r: usize)
    requires
        lo <= hi <= buf@.len(),
    ensures
        r - lo == next_sep(lowered(buf@.subrange(lo as int, hi as int)), 101u8, 0),
        lo <= r <= hi,
{
    let ghost s = lowered(buf@.subrange(lo as int, hi as int));
    let mut j: usize = lo;
    while j < hi && buf[j] != 101 && buf[j] != 69
        invariant
            lo <= j <= hi,
            hi <= buf@.len(),
            s == lowered(buf@.subrange(lo as int, hi as int)),
            next_sep(s, 101u8, 0) == next_sep(s, 101u8, j - lo),
        decreases hi - j,
    {
        assert(s[j - lo] == crate::text::lower(buf@[j as int]));
        j = j + 1;
    }
    if j < hi {
        assert(s[j - lo] == crate::text::lower(buf@[j as int]));
    }
    j
}

fn is_number_in(buf: &[u8], lo: usize, hi: usize) -> (r: bool)
    requires
        lo <= hi <= buf@.len(),
    ensures
        r == is_number(buf@.subrange(lo as int, hi as int)),
{
    let ghost b = buf@.subrange(lo as int, hi as int);
    let e = find_exponent_mark(buf, lo, hi);
    if e >= hi {
        is_mantissa_in(buf, lo, hi)
    } else {
        assert(b.subrange(0, e - lo) =~= buf@.subrange(lo as int, e as int));
        assert(b.subrange(e - lo + 1, b.len() as int) =~= buf@.subrange(e + 1, hi as int));
        is_mantissa_in(buf, lo, e) && is_exponent_in(buf, e + 1, hi)
    }
}

/// Whether `buf[lo..hi]` is a floating-point literal.
pub fn is_float_in(buf: &[u8], lo: usize, hi: usize) -> (r: bool)
    requires
        lo <= hi <= buf@.len(),
    ensures
        r == is_float_text(buf@.subrange(lo as int, hi as int)),
{
    let ghost f = buf@.subrange(lo as int, hi as int);
    let start: usize = if lo < hi && (buf[lo] == 43 || buf[lo] == 45) {
        lo + 1
    } else {
        lo
    };
    if lo < hi {
        assert(f[0] == buf@[lo as int]);
    }
    assert(unsigned_part(f) =~= buf@.subrange(start as int, hi as int));
    let inf: Vec<u8> = vec![105, 110, 102];
    let infinity: Vec<u8> = vec![105, 110, 102, 105, 110, 105, 116, 121];
    let nan: Vec<u8> = vec![110, 97, 110];
    assert(inf@ =~= inf_word());
    assert(infinity@ =~= infinity_word());
    assert(nan@ =~= nan_word());
    range_is_folded(buf, start, hi, &inf) || range_is_folded(buf, start, hi, &infinity)
        || range_is_folded(buf, start, hi, &nan) || is_number_in(buf, start, hi)
}

/// Whether a power source was gaining or losing charge when a sample was taken.
#[derive(Clone, Copy, Debug, PartialEq, Eq, Structural, Hash)]
pub enum ChargeState {
    Charging,
    Discharging,
    Unknown,
}

pub open spec fn charging_word() -> Seq<u8> {
    seq![99u8, 104u8, 97u8, 114u8, 103u8, 105u8, 110u8, 103u8]
}

pub open spec fn discharging_word() -> Seq<u8> {
    seq![100u8, 105u8, 115u8, 99u8, 104u8, 97u8, 114u8, 103u8, 105u8, 110u8, 103u8]
}

/// `charging` and `discharging`, matched exactly, name their states; any other
/// token is `Unknown`.
pub open spec fn charge_state_of(tok: Seq<u8>) -> ChargeState {
    if tok == charging_word() {
        ChargeState::Charging
    } else if tok == discharging_word() {
        ChargeState::Discharging
    } else {
        ChargeState::Unknown
    }
}

/// The charge state that the token `buf[lo..hi]` names.
pub fn charge_state_in(buf: &[u8], lo: usize, hi: usize) -> (r: ChargeState)
    requires
        lo <= hi <= buf@.len(),
    ensures
        r == charge_state_of(buf@.subrange(lo as int, hi as int)),
{
    let charging: Vec<u8> = vec![99, 104, 97, 114, 103, 105, 110, 103];
    let discharging: Vec<u8> = vec![100, 105, 115, 99, 104, 97, 114, 103, 105, 110, 103];
    assert(charging@ =~= charging_word());
    assert(discharging@ =~= discharging_word());
    if range_is(buf, lo, hi, &charging) {
        ChargeState::Charging
    } else if range_is(buf, lo, hi, &discharging) {
        ChargeState::Discharging
    } else {
        ChargeState::Unknown
    }
}

/// 0001-01-01 00:00:00 UTC, in seconds from the Unix epoch.
pub const EARLIEST_UNIX_SECONDS: i64 = -62135596800;

/// 9999-12-31 23:59:59 UTC, in seconds from the Unix epoch.
pub const LATEST_UNIX_SECONDS: i64 = 253402300799;

/// Whether Unix time `secs` falls in the calendar's years 1 to 9999.
pub open spec fn is_representable(secs: i64) -> bool {
    EARLIEST_UNIX_SECONDS <= secs <= LATEST_UNIX_SECONDS
}

/// A timezone-independent instant, to the second, within the years 1 to 9999.
#[derive(Clone, Copy, Debug, PartialEq, Eq, Structural, Hash)]
pub struct Timestamp {
    secs: i64,
}

impl View for Timestamp {
    type V = i64;

    closed spec fn view(&self) -> i64 {
        self.secs
    }
}

impl Timestamp {
    #[verifier::type_invariant]
    spec fn inv(self) -> bool {
        is_representable(self.secs)
    }

    /// The instant `secs` seconds after the Unix epoch, when it is representable.
    pub fn from_unix_utc(secs: i64) -> (r: Option<Timestamp>)
        ensures
            r is Some <==> is_representable(secs),
            r matches Some(t) ==> t@ == secs,
    {
        if EARLIEST_UNIX_SECONDS <= secs && secs <= LATEST_UNIX_SECONDS {
            Some(Timestamp { secs })
        } else {
            None
        }
    }

    /// Seconds from the Unix epoch.
    pub fn to_unix(&self) -> (r: i64)
        ensures
            r == self@,
            is_representable(r),
    {
        proof {
            use_type_invariant(self);
        }
        self.secs
    }
}

/// A sample as a value: its time in Unix seconds, the text of its reading and its
/// charge state.
pub struct SampleModel {
    pub date_time: i64,
    pub value: Seq<u8>,
    pub charge_state: ChargeState,
}

/// One sample of a log: when it was taken, the reading, and the charge state.
/// The reading is kept as the floating-point literal that the log holds.
#[derive(Clone, Debug, PartialEq, Eq)]
pub struct DataValue {
    pub date_time: Timestamp,
    pub value: Vec<u8>,
    pub charge_state: ChargeState,
}

impl View for DataValue {
    type V = SampleModel;

    open spec fn view(&self) -> SampleModel {
        SampleModel {
            date_time: self.date_time@,
            value: self.value@,
            charge_state: self.charge_state,
        }
    }
}

/// The sample that a log line holds. Its fields are separated by tabs: the time in
/// Unix seconds, a floating-point reading and a charge-state token, then any
/// fields that are ignored. A line with fewer than three fields, a time that is not
/// a 64-bit integer or not representable, or a reading that is not a
/// floating-point literal holds none.
pub open spec fn line_sample(l: Seq<u8>) -> Option<SampleModel> {
    let t1 = next_sep(l, TAB, 0);
    let t2 = next_sep(l, TAB, t1 + 1);
    let t3 = next_sep(l, TAB, t2 + 1);
    if t1 >= l.len() || t2 >= l.len() {
        None
    } else {
        match parse_i64(l.subrange(0, t1)) {
            Some(secs) => if is_representable(secs) && is_float_text(l.subrange(t1 + 1, t2)) {
                Some(
                    SampleModel {
                        date_time: secs,
                        value: l.subrange(t1 + 1, t2),
                        charge_state: charge_state_of(l.subrange(t2 + 1, t3)),
                    },
                )
            } else {
                None
            },
            None => None,
        }
    }
}

/// Parses the line `buf[lo..hi]` into the sample it holds, if any.
pub fn parse_line(buf: &[u8], lo: usize, hi: usize) -> (r: Option<DataValue>)
    requires
        lo <= hi <= buf@.len(),
    ensures
        r is None <==> line_sample(buf@.subrange(lo as int, hi as int)) is None,
        r matches Some(v) ==> line_sample(buf@.subrange(lo as int, hi as int)) == Some(v@),
{
    let ghost l = buf@.subrange(lo as int, hi as int);
    let t1 = find_sep(buf, TAB, lo, lo, hi);
    if t1 >= hi {
        return None;
    }
    let t2 = find_sep(buf, TAB, lo, t1 + 1, hi);
    if t2 >= hi {
        return None;
    }
    let t3 = find_sep(buf, TAB, lo, t2 + 1, hi);
    assert(l.subrange(0, t1 - lo) =~= buf@.subrange(lo as int, t1 as int));
    assert(l.subrange(t1 - lo + 1, t2 - lo) =~= buf@.subrange(t1 + 1, t2 as int));
    assert(l.subrange(t2 - lo + 1, t3 - lo) =~= buf@.subrange(t2 + 1, t3 as int));
    match parse_i64_in(buf, lo, t1) {
        Some(secs) => {
            match Timestamp::from_unix_utc(secs) {
                Some(date_time) => {
                    if !is_float_in(buf, t1 + 1, t2) {
                        return None;
                    }
                    let value = copy_range(buf, t1 + 1, t2);
                    let charge_state = charge_state_in(buf, t2 + 1, t3);
                    Some(DataValue { date_time, value, charge_state })
                },
                None => None,
            }
        },
        None => None,
    }
}

} // verus!
