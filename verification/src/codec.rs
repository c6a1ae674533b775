use vstd::prelude::*;
use vstd::arithmetic::div_mod::lemma_fundamental_div_mod_converse;
use crate::date::{DateKey, date_valid, date_is_valid};
use crate::timestamp::{Timestamp, ts_valid, timestamp_seconds};
use crate::store::{Session, DayRecord, SessionStore, session_valid, sessions_wf, store_wf};

verus! {

// The snapshot format is a small JSON document in one fixed, canonical
// shape: `{"records":{"YYYY-MM-DD":[["<ts>",null],["<ts>","<ts>"]],...}}`
// with each timestamp written `YYYY-MM-DDTHH:MM:SS+HH:MM`. The renderer
// below is the format's definition; the parser accepts exactly that shape.

/// Two ASCII digits of `n` (for `0 <= n < 100`).
pub open spec fn digit2(n: int) -> Seq<u8> {
    seq![(48 + n / 10) as u8, (48 + n % 10) as u8]
}

/// Four ASCII digits of `n` (for `0 <= n < 10000`).
pub open spec fn digit4(n: int) -> Seq<u8> {
    digit2(n / 100) + digit2(n % 100)
}

pub open spec fn render_date(d: DateKey) -> Seq<u8> {
    digit4(d.year as int) + seq![45u8] + digit2(d.month as int) + seq![45u8] + digit2(d.day as int)
}

/// The magnitude of the UTC offset, in minutes.
pub open spec fn off_mag(t: Timestamp) -> int {
    if t.offset_minutes >= 0 {
        t.offset_minutes as int
    } else {
        -(t.offset_minutes as int)
    }
}

pub open spec fn render_ts(t: Timestamp) -> Seq<u8> {
    render_date(t.date) + seq![84u8] + digit2(t.hour as int) + seq![58u8] + digit2(
        t.minute as int,
    ) + seq![58u8] + digit2(t.second as int) + seq![
        if t.offset_minutes >= 0 {
            43u8
        } else {
            45u8
        },
    ] + digit2(off_mag(t) / 60) + seq![58u8] + digit2(off_mag(t) % 60)
}

pub open spec fn render_session(s: Session) -> Seq<u8> {
    seq![91u8, 34u8] + render_ts(s.start) + seq![34u8, 44u8] + (match s.end {
        Some(e) => seq![34u8] + render_ts(e) + seq![34u8],
        None => seq![110u8, 117u8, 108u8, 108u8],
    }) + seq![93u8]
}

pub open spec fn render_sessions(ss: Seq<Session>) -> Seq<u8>
    decreases ss.len(),
{
    if ss.len() == 0 {
        Seq::empty()
    } else if ss.len() == 1 {
        render_session(ss[0])
    } else {
        render_sessions(ss.drop_last()) + seq![44u8] + render_session(ss.last())
    }
}

pub open spec fn render_entry(e: (DateKey, Seq<Session>)) -> Seq<u8> {
    seq![34u8] + render_date(e.0) + seq![34u8, 58u8, 91u8] + render_sessions(e.1) + seq![93u8]
}

pub open spec fn render_entries(m: Seq<(DateKey, Seq<Session>)>) -> Seq<u8>
    decreases m.len(),
{
    if m.len() == 0 {
        Seq::empty()
    } else if m.len() == 1 {
        render_entry(m[0])
    } else {
        render_entries(m.drop_last()) + seq![44u8] + render_entry(m.last())
    }
}

/// The fixed opening `{"records":{` of every snapshot.
pub open spec fn header() -> Seq<u8> {
    seq![123u8, 34u8, 114u8, 101u8, 99u8, 111u8, 114u8, 100u8, 115u8, 34u8, 58u8, 123u8]
}

pub open spec fn render_snapshot(m: Seq<(DateKey, Seq<Session>)>) -> Seq<u8> {
    header() + render_entries(m) + seq![125u8, 125u8]
}

proof fn lemma_two_digits(a: int, b: int)
    requires
        0 <= a < 10,
        0 <= b < 10,
    ensures
        (a * 10 + b) / 10 == a,
        (a * 10 + b) % 10 == b,
{
    lemma_fundamental_div_mod_converse(a * 10 + b, 10, a, b);
}

proof fn lemma_hi_lo(hi: int, lo: int)
    requires
        0 <= hi < 100,
        0 <= lo < 100,
    ensures
        (hi * 100 + lo) / 100 == hi,
        (hi * 100 + lo) % 100 == lo,
{
    lemma_fundamental_div_mod_converse(hi * 100 + lo, 100, hi, lo);
}

fn push_digit2(out: &mut Vec<u8>, n: u32)
    requires
        n < 100,
    ensures
        final(out)@ == old(out)@ + digit2(n as int),
{
    out.push((48 + n / 10) as u8);
    out.push((48 + n % 10) as u8);
    proof {
        assert(out@ =~= old(out)@ + digit2(n as int));
    }
}

fn push_digit4(out: &mut Vec<u8>, n: u32)
    requires
        n < 10000,
    ensures
        final(out)@ == old(out)@ + digit4(n as int),
{
    push_digit2(out, n / 100);
    push_digit2(out, n % 100);
    proof {
        assert(out@ =~= old(out)@ + digit4(n as int));
    }
}

fn push_date(out: &mut Vec<u8>, d: &DateKey)
    requires
        date_valid(*d),
    ensures
        final(out)@ == old(out)@ + render_date(*d),
{
    push_digit4(out, d.year);
    out.push(45);
    push_digit2(out, d.month);
    out.push(45);
    push_digit2(out, d.day);
    proof {
        assert(out@ =~= old(out)@ + render_date(*d));
    }
}

fn push_ts(out: &mut Vec<u8>, t: &Timestamp)
    requires
        ts_valid(*t),
    ensures
        final(out)@ == old(out)@ + render_ts(*t),
{
    push_date(out, &t.date);
    out.push(84);
    push_digit2(out, t.hour);
    out.push(58);
    push_digit2(out, t.minute);
    out.push(58);
    push_digit2(out, t.second);
    let mag: u32;
    if t.offset_minutes >= 0 {
        out.push(43);
        mag = t.offset_minutes as u32;
    } else {
        out.push(45);
        mag = (-t.offset_minutes) as u32;
    }
    proof {
        assert(mag as int == off_mag(*t));
    }
    push_digit2(out, mag / 60);
    out.push(58);
    push_digit2(out, mag % 60);
    proof {
        assert(out@ =~= old(out)@ + render_ts(*t));
    }
}

#[verifier::rlimit(100)]
fn push_session(out: &mut Vec<u8>, s: &Session)
    requires
        session_valid(*s),
    ensures
        final(out)@ == old(out)@ + render_session(*s),
{
    out.push(91);
    out.push(34);
    push_ts(out, &s.start);
    out.push(34);
    out.push(44);
    match s.end {
        Some(e) => {
            out.push(34);
            push_ts(out, &e);
            out.push(34);
        },
        None => {
            out.push(110);
            out.push(117);
            out.push(108);
            out.push(108);
        },
    }
    out.push(93);
    proof {
        assert(out@ =~= old(out)@ + render_session(*s));
    }
}

impl SessionStore {
    /// Serialize the whole store to the canonical snapshot bytes. The
    /// output replaces the snapshot file wholesale.
    #[verifier::rlimit(100)]
    pub fn save(&self) -> (out: Vec<u8>)
        requires
            store_wf(self@),
        ensures
            out@ == render_snapshot(self@),
    {
        let ghost m = self@;
        let mut out: Vec<u8> = Vec::new();
        out.push(123);
        out.push(34);
        out.push(114);
        out.push(101);
        out.push(99);
        out.push(111);
        out.push(114);
        out.push(100);
        out.push(115);
        out.push(34);
        out.push(58);
        out.push(123);
        proof {
            assert(out@ =~= header() + render_entries(m.take(0)));
        }
        let mut i: usize = 0;
        while i < self.records.len()
            invariant
                store_wf(m),
                m == self@,
                i <= self.records.len(),
                m.len() == self.records.len(),
                out@ == header() + render_entries(m.take(i as int)),
            decreases self.records.len() - i,
        {
            proof {
                assert(m[i as int] == (self.records@[i as int].date, self.records@[
                i as int].sessions@));
                assert(sessions_wf(m[i as int].1));
            }
            if i > 0 {
                out.push(44);
            }
            let ghost out_pre = out@;
            out.push(34);
            push_date(&mut out, &self.records[i].date);
            out.push(34);
            out.push(58);
            out.push(91);
            let ghost ss = m[i as int].1;
            let n = self.records[i].sessions.len();
            let ghost out_mid = out@;
            let mut q: usize = 0;
            while q < n
                invariant
                    store_wf(m),
                    m == self@,
                    i < self.records.len(),
                    m.len() == self.records.len(),
                    ss == m[i as int].1,
                    ss == self.records@[i as int].sessions@,
                    n == self.records@[i as int].sessions@.len(),
                    q <= n,
                    sessions_wf(ss),
                    out@ == out_mid + render_sessions(ss.take(q as int)),
                decreases n - q,
            {
                proof {
                    assert(session_valid(ss[q as int]));
                }
                if q > 0 {
                    out.push(44);
                }
                let s = self.records[i].sessions[q];
                push_session(&mut out, &s);
                proof {
                    if q == 0 {
                        assert(ss.take(1)[0] == ss[0]);
                        assert(render_sessions(ss.take(1)) == render_session(ss[0]));
                        assert(out@ =~= out_mid + render_sessions(ss.take(q as int + 1)));
                    } else {
                        assert(ss.take(q as int + 1).drop_last() =~= ss.take(q as int));
                        assert(ss.take(q as int + 1).last() == ss[q as int]);
                        assert(render_sessions(ss.take(q as int + 1)) == render_sessions(
                            ss.take(q as int),
                        ) + seq![44u8] + render_session(ss[q as int]));
                        assert(out@ =~= out_mid + render_sessions(ss.take(q as int + 1)));
                    }
                }
                q = q + 1;
            }
            out.push(93);
            proof {
                assert(ss.take(n as int) =~= ss);
                assert(out@ =~= out_mid + render_sessions(ss) + seq![93u8]);
                assert(out_mid =~= out_pre + seq![34u8] + render_date(m[i as int].0) + seq![
                    34u8,
                    58u8,
                    91u8,
                ]);
                assert(out@ =~= out_pre + render_entry(m[i as int]));
                if i == 0 {
                    assert(out_pre =~= header() + render_entries(m.take(0)));
                    assert(render_entries(m.take(0)) =~= Seq::<u8>::empty());
                    assert(m.take(1)[0] == m[0]);
                    assert(render_entries(m.take(1)) == render_entry(m[0]));
                    assert(out@ =~= header() + render_entries(m.take(i as int + 1)));
                } else {
                    assert(out_pre =~= header() + render_entries(m.take(i as int)) + seq![44u8]);
                    assert(m.take(i as int + 1).drop_last() =~= m.take(i as int));
                    assert(m.take(i as int + 1).last() == m[i as int]);
                    assert(render_entries(m.take(i as int + 1)) == render_entries(
                        m.take(i as int),
                    ) + seq![44u8] + render_entry(m[i as int]));
                    assert(out@ =~= header() + render_entries(m.take(i as int + 1)));
                }
            }
            i = i + 1;
        }
        proof {
            assert(m.take(i as int) =~= m);
        }
        out.push(125);
        out.push(125);
        proof {
            assert(out@ =~= render_snapshot(m));
        }
        out
    }
}

fn parse_digit2(data: &Vec<u8>, i: usize) -> (r: Option<(u32, usize)>)
    requires
        i <= data@.len(),
    ensures
        r matches Some((n, j)) ==> n < 100 && j == i + 2 && j <= data@.len() && data@.subrange(
            i as int,
            j as int,
        ) == digit2(n as int),
        forall|n: u32|
            n < 100 && i + 2 <= data@.len() && data@.subrange(i as int, i as int + 2) == digit2(
                n as int,
            ) ==> r == Some((n, (i + 2) as usize)),
{
    if data.len() - i >= 2 {
        let b0 = data[i];
        let b1 = data[i + 1];
        if 48 <= b0 && b0 <= 57 && 48 <= b1 && b1 <= 57 {
            let n: u32 = ((b0 - 48) as u32) * 10 + ((b1 - 48) as u32);
            proof {
                lemma_two_digits((b0 - 48) as int, (b1 - 48) as int);
                assert(data@.subrange(i as int, i as int + 2) =~= seq![b0, b1]);
                assert(seq![b0, b1] =~= digit2(n as int));
            }
            Some((n, i + 2))
        } else {
            None
        }
    } else {
        None
    }
}

fn parse_digit4(data: &Vec<u8>, i: usize) -> (r: Option<(u32, usize)>)
    requires
        i <= data@.len(),
    ensures
        r matches Some((n, j)) ==> n < 10000 && j == i + 4 && j <= data@.len() && data@.subrange(
            i as int,
            j as int,
        ) == digit4(n as int),
        forall|n: u32|
            n < 10000 && i + 4 <= data@.len() && data@.subrange(i as int, i as int + 4) == digit4(
                n as int,
            ) ==> r == Some((n, (i + 4) as usize)),
{
    proof {
        assert forall|n: u32|
            n < 10000 && i + 4 <= data@.len() && data@.subrange(i as int, i as int + 4) == digit4(
                n as int,
            ) implies data@.subrange(i as int, i as int + 2) == digit2(n as int / 100)
            && data@.subrange(i as int + 2, i as int + 4) == digit2(n as int % 100) by {
            assert(data@.subrange(i as int, i as int + 2) =~= data@.subrange(
                i as int,
                i as int + 4,
            ).subrange(0, 2));
            assert(data@.subrange(i as int + 2, i as int + 4) =~= data@.subrange(
                i as int,
                i as int + 4,
            ).subrange(2, 4));
            assert(digit4(n as int).subrange(0, 2) =~= digit2(n as int / 100));
            assert(digit4(n as int).subrange(2, 4) =~= digit2(n as int % 100));
        }
    }
    match parse_digit2(data, i) {
        Some((hi, j1)) => match parse_digit2(data, j1) {
            Some((lo, j2)) => {
                let n: u32 = hi * 100 + lo;
                proof {
                    lemma_hi_lo(hi as int, lo as int);
                    assert(data@.subrange(i as int, i as int + 4) =~= data@.subrange(
                        i as int,
                        i as int + 2,
                    ) + data@.subrange(i as int + 2, i as int + 4));
                    assert(data@.subrange(i as int, i as int + 4) =~= digit4(n as int));
                }
                Some((n, j2))
            },
            None => None,
        },
        None => None,
    }
}

fn expect(data: &Vec<u8>, i: usize, b: u8) -> (r: Option<usize>)
    requires
        i <= data@.len(),
    ensures
        r matches Some(j) ==> j == i + 1 && j <= data@.len() && data@[i as int] == b,
        i < data@.len() && data@[i as int] == b ==> r == Some((i + 1) as usize),
{
    if data.len() - i >= 1 {
        if data[i] == b {
            Some(i + 1)
        } else {
            None
        }
    } else {
        None
    }
}

fn parse_date(data: &Vec<u8>, i: usize) -> (r: Option<(DateKey, usize)>)
    requires
        i <= data@.len(),
    ensures
        r matches Some((d, j)) ==> date_valid(d) && j == i + 10 && j <= data@.len()
            && data@.subrange(i as int, j as int) == render_date(d),
        forall|d: DateKey|
            date_valid(d) && i + 10 <= data@.len() && data@.subrange(i as int, i as int + 10)
                == render_date(d) ==> r == Some((d, (i + 10) as usize)),
{
    proof {
        let ii = i as int;
        assert forall|d: DateKey|
            date_valid(d) && i + 10 <= data@.len() && data@.subrange(ii, ii + 10) == render_date(
                d,
            ) implies data@.subrange(ii, ii + 4) == digit4(d.year as int) && data@[ii + 4] == 45u8
            && data@.subrange(ii + 5, ii + 7) == digit2(d.month as int) && data@[ii + 7] == 45u8
            && data@.subrange(ii + 8, ii + 10) == digit2(d.day as int) by {
            assert(render_date(d).subrange(0, 4) =~= digit4(d.year as int));
            assert(render_date(d)[4] == 45u8);
            assert(render_date(d).subrange(5, 7) =~= digit2(d.month as int));
            assert(render_date(d)[7] == 45u8);
            assert(render_date(d).subrange(8, 10) =~= digit2(d.day as int));
            assert(data@.subrange(ii, ii + 4) =~= data@.subrange(ii, ii + 10).subrange(0, 4));
            assert(data@[ii + 4] == data@.subrange(ii, ii + 10)[4]);
            assert(data@.subrange(ii + 5, ii + 7) =~= data@.subrange(ii, ii + 10).subrange(5, 7));
            assert(data@[ii + 7] == data@.subrange(ii, ii + 10)[7]);
            assert(data@.subrange(ii + 8, ii + 10) =~= data@.subrange(ii, ii + 10).subrange(
                8,
                10,
            ));
        }
    }
    let (y, j1) = match parse_digit4(data, i) {
        Some(x) => x,
        None => {
            return None;
        },
    };
    let j2 = match expect(data, j1, 45) {
        Some(x) => x,
        None => {
            return None;
        },
    };
    let (mo, j3) = match parse_digit2(data, j2) {
        Some(x) => x,
        None => {
            return None;
        },
    };
    let j4 = match expect(data, j3, 45) {
        Some(x) => x,
        None => {
            return None;
        },
    };
    let (dd, j5) = match parse_digit2(data, j4) {
        Some(x) => x,
        None => {
            return None;
        },
    };
    let d = DateKey { year: y, month: mo, day: dd };
    if date_is_valid(&d) {
        proof {
            let ii = i as int;
            assert(data@.subrange(j1 as int, j2 as int) =~= seq![data@[j1 as int]]);
            assert(data@.subrange(j3 as int, j4 as int) =~= seq![data@[j3 as int]]);
            assert(data@.subrange(ii, ii + 10) =~= data@.subrange(ii, ii + 4) + data@.subrange(
                ii + 4,
                ii + 5,
            ) + data@.subrange(ii + 5, ii + 7) + data@.subrange(ii + 7, ii + 8) + data@.subrange(
                ii + 8,
                ii + 10,
            ));
            assert(data@.subrange(ii, ii + 10) =~= render_date(d));
        }
        Some((d, j5))
    } else {
        None
    }
}

#[verifier::rlimit(100)]
fn parse_ts(data: &Vec<u8>, i: usize) -> (r: Option<(Timestamp, usize)>)
    requires
        i <= data@.len(),
    ensures
        r matches Some((t, j)) ==> ts_valid(t) && j == i + 25 && j <= data@.len()
            && data@.subrange(i as int, j as int) == render_ts(t),
        forall|t: Timestamp|
            ts_valid(t) && i + 25 <= data@.len() && data@.subrange(i as int, i as int + 25)
                == render_ts(t) ==> r == Some((t, (i + 25) as usize)),
{
    proof {
        let ii = i as int;
        assert forall|t: Timestamp|
            ts_valid(t) && i + 25 <= data@.len() && data@.subrange(ii, ii + 25) == render_ts(
                t,
            ) implies data@.subrange(ii, ii + 10) == render_date(t.date) && data@[ii + 10] == 84u8
            && data@.subrange(ii + 11, ii + 13) == digit2(t.hour as int) && data@[ii + 13] == 58u8
            && data@.subrange(ii + 14, ii + 16) == digit2(t.minute as int) && data@[ii + 16]
            == 58u8 && data@.subrange(ii + 17, ii + 19) == digit2(t.second as int) && data@[ii
            + 19] == (if t.offset_minutes >= 0 {
            43u8
        } else {
            45u8
        }) && data@.subrange(ii + 20, ii + 22) == digit2(off_mag(t) / 60) && data@[ii + 22]
            == 58u8 && data@.subrange(ii + 23, ii + 25) == digit2(off_mag(t) % 60) by {
            assert(render_ts(t).subrange(0, 10) =~= render_date(t.date));
            assert(render_ts(t)[10] == 84u8);
            assert(render_ts(t).subrange(11, 13) =~= digit2(t.hour as int));
            assert(render_ts(t)[13] == 58u8);
            assert(render_ts(t).subrange(14, 16) =~= digit2(t.minute as int));
            assert(render_ts(t)[16] == 58u8);
            assert(render_ts(t).subrange(17, 19) =~= digit2(t.second as int));
            assert(render_ts(t)[19] == (if t.offset_minutes >= 0 {
                43u8
            } else {
                45u8
            }));
            assert(render_ts(t).subrange(20, 22) =~= digit2(off_mag(t) / 60));
            assert(render_ts(t)[22] == 58u8);
            assert(render_ts(t).subrange(23, 25) =~= digit2(off_mag(t) % 60));
            assert(data@.subrange(ii, ii + 10) =~= data@.subrange(ii, ii + 25).subrange(0, 10));
            assert(data@[ii + 10] == data@.subrange(ii, ii + 25)[10]);
            assert(data@.subrange(ii + 11, ii + 13) =~= data@.subrange(ii, ii + 25).subrange(
                11,
                13,
            ));
            assert(data@[ii + 13] == data@.subrange(ii, ii + 25)[13]);
            assert(data@.subrange(ii + 14, ii + 16) =~= data@.subrange(ii, ii + 25).subrange(
                14,
                16,
            ));
            assert(data@[ii + 16] == data@.subrange(ii, ii + 25)[16]);
            assert(data@.subrange(ii + 17, ii + 19) =~= data@.subrange(ii, ii + 25).subrange(
                17,
                19,
            ));
            assert(data@[ii + 19] == data@.subrange(ii, ii + 25)[19]);
            assert(data@.subrange(ii + 20, ii + 22) =~= data@.subrange(ii, ii + 25).subrange(
                20,
                22,
            ));
            assert(data@[ii + 22] == data@.subrange(ii, ii + 25)[22]);
            assert(data@.subrange(ii + 23, ii + 25) =~= data@.subrange(ii, ii + 25).subrange(
                23,
                25,
            ));
        }
    }
    let (d, j1) = match parse_date(data, i) {
        Some(x) => x,
        None => {
            return None;
        },
    };
    let j2 = match expect(data, j1, 84) {
        Some(x) => x,
        None => {
            return None;
        },
    };
    let (h, j3) = match parse_digit2(data, j2) {
        Some(x) => x,
        None => {
            return None;
        },
    };
    let j4 = match expect(data, j3, 58) {
        Some(x) => x,
        None => {
            return None;
        },
    };
    let (mi, j5) = match parse_digit2(data, j4) {
        Some(x) => x,
        None => {
            return None;
        },
    };
    let j6 = match expect(data, j5, 58) {
        Some(x) => x,
        None => {
            return None;
        },
    };
    let (sec, j7) = match parse_digit2(data, j6) {
        Some(x) => x,
        None => {
            return None;
        },
    };
    if !(h < 24 && mi < 60 && sec < 60) {
        return None;
    }
    if data.len() - j7 < 1 {
        return None;
    }
    let sb = data[j7];
    if sb != 43 && sb != 45 {
        return None;
    }
    let j8 = j7 + 1;
    let (oh, j9) = match parse_digit2(data, j8) {
        Some(x) => x,
        None => {
            return None;
        },
    };
    let j10 = match expect(data, j9, 58) {
        Some(x) => x,
        None => {
            return None;
        },
    };
    let (om, j11) = match parse_digit2(data, j10) {
        Some(x) => x,
        None => {
            return None;
        },
    };
    if !(oh <= 23 && om < 60) {
        return None;
    }
    let mag: u32 = oh * 60 + om;
    if sb == 45 && mag == 0 {
        return None;
    }
    let off: i32 = if sb == 43 {
        mag as i32
    } else {
        -(mag as i32)
    };
    let t = Timestamp { date: d, hour: h, minute: mi, second: sec, offset_minutes: off };
    proof {
        lemma_fundamental_div_mod_converse(mag as int, 60, oh as int, om as int);
        assert(off_mag(t) == mag as int);
        let ii = i as int;
        assert(data@.subrange(j1 as int, j2 as int) =~= seq![data@[j1 as int]]);
        assert(data@.subrange(j3 as int, j4 as int) =~= seq![data@[j3 as int]]);
        assert(data@.subrange(j5 as int, j6 as int) =~= seq![data@[j5 as int]]);
        assert(data@.subrange(j7 as int, j8 as int) =~= seq![data@[j7 as int]]);
        assert(data@.subrange(j9 as int, j10 as int) =~= seq![data@[j9 as int]]);
        assert(data@.subrange(ii, ii + 25) =~= data@.subrange(ii, ii + 10) + data@.subrange(
            ii + 10,
            ii + 11,
        ) + data@.subrange(ii + 11, ii + 13) + data@.subrange(ii + 13, ii + 14) + data@.subrange(
            ii + 14,
            ii + 16,
        ) + data@.subrange(ii + 16, ii + 17) + data@.subrange(ii + 17, ii + 19) + data@.subrange(
            ii + 19,
            ii + 20,
        ) + data@.subrange(ii + 20, ii + 22) + data@.subrange(ii + 22, ii + 23) + data@.subrange(
            ii + 23,
            ii + 25,
        ));
        assert(data@.subrange(ii, ii + 25) =~= render_ts(t));
    }
    Some((t, j11))
}

/// How the canonical bytes of one session decompose around position `ii`:
/// the facts a strict parser needs to re-read a rendered session.
#[verifier::rlimit(100)]
proof fn lemma_session_render_shape(data: Seq<u8>, ii: int)
    requires
        0 <= ii,
    ensures
        forall|s: Session|
            session_valid(s) && s.end is None && ii + render_session(s).len() <= data.len()
                && data.subrange(ii, ii + render_session(s).len()) == render_session(s)
                ==> render_session(s).len() == 34 && data[ii] == 91u8 && data[ii + 1] == 34u8
                && #[trigger] data.subrange(ii + 2, ii + 27) == render_ts(s.start) && data[ii + 27]
                == 34u8 && data[ii + 28] == 44u8 && data[ii + 29] == 110u8 && data[ii + 30]
                == 117u8 && data[ii + 31] == 108u8 && data[ii + 32] == 108u8 && data[ii + 33]
                == 93u8,
        forall|s: Session|
            session_valid(s) && s.end is Some && ii + render_session(s).len() <= data.len()
                && data.subrange(ii, ii + render_session(s).len()) == render_session(s)
                ==> render_session(s).len() == 57 && data[ii] == 91u8 && data[ii + 1] == 34u8
                && #[trigger] data.subrange(ii + 2, ii + 27) == render_ts(s.start) && data[ii + 27]
                == 34u8 && data[ii + 28] == 44u8 && data[ii + 29] == 34u8 && data.subrange(
                ii + 30,
                ii + 55,
            ) == render_ts(s.end->Some_0) && data[ii + 55] == 34u8 && data[ii + 56] == 93u8,
{
    assert forall|s: Session|
        session_valid(s) && s.end is None && ii + render_session(s).len() <= data.len()
            && data.subrange(ii, ii + render_session(s).len()) == render_session(s) implies
        render_session(s).len() == 34 && data[ii] == 91u8 && data[ii + 1] == 34u8
        && #[trigger] data.subrange(ii + 2, ii + 27) == render_ts(s.start) && data[ii + 27] == 34u8
        && data[ii + 28] == 44u8 && data[ii + 29] == 110u8 && data[ii + 30] == 117u8 && data[ii
        + 31] == 108u8 && data[ii + 32] == 108u8 && data[ii + 33] == 93u8 by {
        let rr = render_session(s);
        assert(rr.len() == 34);
        assert(rr.subrange(2, 27) =~= render_ts(s.start));
        assert(data.subrange(ii + 2, ii + 27) =~= data.subrange(ii, ii + 34).subrange(2, 27));
        assert(data[ii] == rr[0] && data[ii + 1] == rr[1] && data[ii + 27] == rr[27] && data[ii
            + 28] == rr[28] && data[ii + 29] == rr[29] && data[ii + 30] == rr[30] && data[ii + 31]
            == rr[31] && data[ii + 32] == rr[32] && data[ii + 33] == rr[33]);
    }
    assert forall|s: Session|
        session_valid(s) && s.end is Some && ii + render_session(s).len() <= data.len()
            && data.subrange(ii, ii + render_session(s).len()) == render_session(s) implies
        render_session(s).len() == 57 && data[ii] == 91u8 && data[ii + 1] == 34u8
        && #[trigger] data.subrange(ii + 2, ii + 27) == render_ts(s.start) && data[ii + 27] == 34u8
        && data[ii + 28] == 44u8 && data[ii + 29] == 34u8 && data.subrange(ii + 30, ii + 55)
        == render_ts(s.end->Some_0) && data[ii + 55] == 34u8 && data[ii + 56] == 93u8 by {
        let rr = render_session(s);
        assert(rr.len() == 57);
        assert(rr.subrange(2, 27) =~= render_ts(s.start));
        assert(rr.subrange(30, 55) =~= render_ts(s.end->Some_0));
        assert(data.subrange(ii + 2, ii + 27) =~= data.subrange(ii, ii + 57).subrange(2, 27));
        assert(data.subrange(ii + 30, ii + 55) =~= data.subrange(ii, ii + 57).subrange(30, 55));
        assert(data[ii] == rr[0] && data[ii + 1] == rr[1] && data[ii + 27] == rr[27] && data[ii
            + 28] == rr[28] && data[ii + 29] == rr[29] && data[ii + 55] == rr[55] && data[ii + 56]
            == rr[56]);
    }
}

#[verifier::rlimit(100)]
fn parse_session(data: &Vec<u8>, i: usize) -> (r: Option<(Session, usize)>)
    requires
        i <= data@.len(),
    ensures
        r matches Some((s, j)) ==> session_valid(s) && i < j && j <= data@.len() && data@.subrange(
            i as int,
            j as int,
        ) == render_session(s),
        forall|s: Session|
            session_valid(s) && i + render_session(s).len() <= data@.len() && #[trigger] data@.subrange(
                i as int,
                i + render_session(s).len(),
            ) == render_session(s) ==> r == Some((s, (i + render_session(s).len()) as usize)),
{
    proof {
        lemma_session_render_shape(data@, i as int);
    }
    let j1 = match expect(data, i, 91) {
        Some(x) => x,
        None => {
            return None;
        },
    };
    let j2 = match expect(data, j1, 34) {
        Some(x) => x,
        None => {
            return None;
        },
    };
    let (start, j3) = match parse_ts(data, j2) {
        Some(x) => x,
        None => {
            return None;
        },
    };
    let j4 = match expect(data, j3, 34) {
        Some(x) => x,
        None => {
            return None;
        },
    };
    let j5 = match expect(data, j4, 44) {
        Some(x) => x,
        None => {
            return None;
        },
    };
    if data.len() - j5 >= 1 && data[j5] == 110 {
        let j6 = match expect(data, j5, 110) {
            Some(x) => x,
            None => {
                return None;
            },
        };
        let j7 = match expect(data, j6, 117) {
            Some(x) => x,
            None => {
                return None;
            },
        };
        let j8 = match expect(data, j7, 108) {
            Some(x) => x,
            None => {
                return None;
            },
        };
        let j9 = match expect(data, j8, 108) {
            Some(x) => x,
            None => {
                return None;
            },
        };
        let jf = match expect(data, j9, 93) {
            Some(x) => x,
            None => {
                return None;
            },
        };
        let s = Session { start, end: None };
        proof {
            let ii = i as int;
            assert(data@.subrange(ii, jf as int) =~= data@.subrange(ii, ii + 2) + data@.subrange(
                j2 as int,
                j3 as int,
            ) + data@.subrange(j3 as int, j5 as int) + data@.subrange(j5 as int, j9 as int)
                + data@.subrange(j9 as int, jf as int));
            assert(data@.subrange(ii, ii + 2) =~= seq![91u8, 34u8]);
            assert(data@.subrange(j3 as int, j5 as int) =~= seq![34u8, 44u8]);
            assert(data@.subrange(j5 as int, j9 as int) =~= seq![110u8, 117u8, 108u8, 108u8]);
            assert(data@.subrange(j9 as int, jf as int) =~= seq![93u8]);
            assert(data@.subrange(ii, jf as int) =~= render_session(s));
        }
        Some((s, jf))
    } else {
        let j6 = match expect(data, j5, 34) {
            Some(x) => x,
            None => {
                return None;
            },
        };
        let (e, j7) = match parse_ts(data, j6) {
            Some(x) => x,
            None => {
                return None;
            },
        };
        let j8 = match expect(data, j7, 34) {
            Some(x) => x,
            None => {
                return None;
            },
        };
        if !(timestamp_seconds(&e) > timestamp_seconds(&start)) {
            return None;
        }
        let jf = match expect(data, j8, 93) {
            Some(x) => x,
            None => {
                return None;
            },
        };
        let s = Session { start, end: Some(e) };
        proof {
            let ii = i as int;
            assert(data@.subrange(ii, jf as int) =~= data@.subrange(ii, ii + 2) + data@.subrange(
                j2 as int,
                j3 as int,
            ) + data@.subrange(j3 as int, j5 as int) + data@.subrange(j5 as int, j6 as int)
                + data@.subrange(j6 as int, j7 as int) + data@.subrange(j7 as int, j8 as int)
                + data@.subrange(j8 as int, jf as int));
            assert(data@.subrange(ii, ii + 2) =~= seq![91u8, 34u8]);
            assert(data@.subrange(j3 as int, j5 as int) =~= seq![34u8, 44u8]);
            assert(data@.subrange(j5 as int, j6 as int) =~= seq![34u8]);
            assert(data@.subrange(j7 as int, j8 as int) =~= seq![34u8]);
            assert(data@.subrange(j8 as int, jf as int) =~= seq![93u8]);
            assert(data@.subrange(ii, jf as int) =~= render_session(s));
        }
        Some((s, jf))
    }
}

#[verifier::rlimit(100)]
/// The head form of `render_sessions`: the first session's bytes, then a
/// comma and the rest.
proof fn lemma_render_sessions_head(ss: Seq<Session>)
    requires
        ss.len() >= 1,
    ensures
        ss.len() == 1 ==> render_sessions(ss) == render_session(ss[0]),
        ss.len() >= 2 ==> render_sessions(ss) == render_session(ss[0]) + seq![44u8]
            + render_sessions(ss.drop_first()),
    decreases ss.len(),
{
    if ss.len() >= 2 {
        let dl = ss.drop_last();
        lemma_render_sessions_head(dl);
        if ss.len() == 2 {
            assert(dl.len() == 1 && dl[0] == ss[0]);
            assert(ss.drop_first().len() == 1 && ss.drop_first()[0] == ss[1]);
            assert(render_sessions(ss.drop_first()) == render_session(ss[1]));
            assert(render_sessions(ss) == render_session(ss[0]) + seq![44u8] + render_session(
                ss[1],
            ));
        } else {
            assert(ss.drop_first().drop_last() =~= dl.drop_first());
            assert(ss.drop_first().last() == ss.last());
            assert(ss.drop_first().len() >= 2);
            assert(render_sessions(ss.drop_first()) == render_sessions(dl.drop_first()) + seq![
                44u8,
            ] + render_session(ss.last()));
            assert(dl[0] == ss[0]);
            assert(render_sessions(ss) =~= render_session(ss[0]) + seq![44u8] + render_sessions(
                ss.drop_first(),
            ));
        }
    }
}

/// How the canonical bytes of a session list decompose around position
/// `ii`: the first session's span, then (for two or more) the comma and the
/// rest's span.
#[verifier::rlimit(100)]
proof fn lemma_sessions_render_shape(data: Seq<u8>, ii: int)
    requires
        0 <= ii,
    ensures
        forall|vs: Seq<Session>|
            vs.len() >= 1 && ii + render_sessions(vs).len() <= data.len()
                && #[trigger] data.subrange(ii, ii + render_sessions(vs).len())
                == render_sessions(vs) ==> data.subrange(
                ii,
                ii + render_session(vs[0]).len(),
            ) == render_session(vs[0]) && (vs.len() == 1 ==> render_sessions(vs).len()
                == render_session(vs[0]).len()) && (vs.len() >= 2 ==> render_sessions(vs).len()
                == render_session(vs[0]).len() + 1 + render_sessions(vs.drop_first()).len()
                && data[ii + render_session(vs[0]).len()] == 44u8 && data.subrange(
                ii + render_session(vs[0]).len() + 1,
                ii + render_sessions(vs).len(),
            ) == render_sessions(vs.drop_first())),
{
    assert forall|vs: Seq<Session>|
        vs.len() >= 1 && ii + render_sessions(vs).len() <= data.len() && #[trigger] data.subrange(
            ii,
            ii + render_sessions(vs).len(),
        ) == render_sessions(vs) implies data.subrange(ii, ii + render_session(vs[0]).len())
        == render_session(vs[0]) && (vs.len() == 1 ==> render_sessions(vs).len()
        == render_session(vs[0]).len()) && (vs.len() >= 2 ==> render_sessions(vs).len()
        == render_session(vs[0]).len() + 1 + render_sessions(vs.drop_first()).len() && data[ii
        + render_session(vs[0]).len()] == 44u8 && data.subrange(
        ii + render_session(vs[0]).len() + 1,
        ii + render_sessions(vs).len(),
    ) == render_sessions(vs.drop_first())) by {
        lemma_render_sessions_head(vs);
        let l0 = render_session(vs[0]).len() as int;
        let ll = render_sessions(vs).len() as int;
        if vs.len() >= 2 {
            assert(render_sessions(vs).subrange(0, l0) =~= render_session(vs[0]));
            assert(data.subrange(ii, ii + l0) =~= data.subrange(ii, ii + ll).subrange(0, l0));
            assert(data[ii + l0] == render_sessions(vs)[l0]);
            assert(render_sessions(vs).subrange(l0 + 1, ll) =~= render_sessions(vs.drop_first()));
            assert(data.subrange(ii + l0 + 1, ii + ll) =~= data.subrange(ii, ii + ll).subrange(
                l0 + 1,
                ll,
            ));
        }
    }
}

/// The completeness hypothesis for a session list: `target`'s canonical
/// bytes sit at `i`, and no comma follows them (the list is maximal).
spec fn sessions_at(data: Seq<u8>, i: int, target: Seq<Session>) -> bool {
    &&& target.len() >= 1
    &&& forall|q: int| 0 <= q < target.len() ==> session_valid(#[trigger] target[q])
    &&& i + render_sessions(target).len() <= data.len()
    &&& data.subrange(i, i + render_sessions(target).len()) == render_sessions(target)
    &&& (i + render_sessions(target).len() == data.len() || data[i + render_sessions(
        target,
    ).len()] != 44u8)
}

/// The head session of a maximal list is determined: whoever's canonical
/// bytes sit at `i` is `s0`, ending at `j0`.
spec fn head_session_at(data: Seq<u8>, i: int, s0: Session, j0: int) -> bool {
    forall|s: Session|
        session_valid(s) && i + render_session(s).len() <= data.len() && #[trigger] data.subrange(
            i,
            i + render_session(s).len(),
        ) == render_session(s) ==> s == s0 && i + render_session(s).len() == j0
}

#[verifier::rlimit(100)]
proof fn lemma_sessions_complete_one(data: Seq<u8>, i: int, s0: Session, j0: int)
    requires
        0 <= i,
        head_session_at(data, i, s0, j0),
        j0 == data.len() || data[j0] != 44u8,
    ensures
        forall|target: Seq<Session>|
            sessions_at(data, i, target) ==> target == seq![s0] && i + render_sessions(
                target,
            ).len() == j0,
{
    lemma_sessions_render_shape(data, i);
    assert forall|target: Seq<Session>| sessions_at(data, i, target) implies target == seq![s0]
        && i + render_sessions(target).len() == j0 by {
        assert(data.subrange(i, i + render_session(target[0]).len()) == render_session(
            target[0],
        ));
        assert(target[0] == s0 && i + render_session(target[0]).len() == j0);
        if target.len() >= 2 {
            assert(data[j0] == 44u8 && j0 < data.len());
            assert(false);
        }
        assert(target =~= seq![s0]);
    }
}

#[verifier::rlimit(100)]
proof fn lemma_sessions_complete_cons(
    data: Seq<u8>,
    i: int,
    s0: Session,
    j0: int,
    rest: Seq<Session>,
    j: int,
)
    requires
        0 <= i,
        head_session_at(data, i, s0, j0),
        0 <= j0 < data.len(),
        data[j0] == 44u8,
        forall|target: Seq<Session>|
            sessions_at(data, j0 + 1, target) ==> rest == target && j == j0 + 1 + render_sessions(
                target,
            ).len(),
    ensures
        forall|target: Seq<Session>|
            sessions_at(data, i, target) ==> seq![s0] + rest == target && j == i + render_sessions(
                target,
            ).len(),
{
    lemma_sessions_render_shape(data, i);
    assert forall|target: Seq<Session>| sessions_at(data, i, target) implies seq![s0] + rest
        == target && j == i + render_sessions(target).len() by {
        assert(data.subrange(i, i + render_session(target[0]).len()) == render_session(
            target[0],
        ));
        assert(target[0] == s0 && i + render_session(target[0]).len() == j0);
        if target.len() == 1 {
            assert(data[j0] != 44u8);
            assert(false);
        } else {
            assert(forall|q: int|
                0 <= q < target.drop_first().len() ==> #[trigger] target.drop_first()[q]
                    == target[q + 1]);
            assert(sessions_at(data, j0 + 1, target.drop_first()));
            assert(rest == target.drop_first() && j == j0 + 1 + render_sessions(
                target.drop_first(),
            ).len());
            assert(seq![s0] + rest =~= target);
        }
    }
}

proof fn lemma_sessions_complete_tail_fail(data: Seq<u8>, i: int, s0: Session, j0: int)
    requires
        0 <= i,
        head_session_at(data, i, s0, j0),
        0 <= j0 < data.len(),
        data[j0] == 44u8,
        forall|target: Seq<Session>| !#[trigger] sessions_at(data, j0 + 1, target),
    ensures
        forall|target: Seq<Session>| !#[trigger] sessions_at(data, i, target),
{
    lemma_sessions_render_shape(data, i);
    assert forall|target: Seq<Session>| !#[trigger] sessions_at(data, i, target) by {
        if sessions_at(data, i, target) {
            assert(data.subrange(i, i + render_session(target[0]).len()) == render_session(
                target[0],
            ));
            assert(target[0] == s0 && i + render_session(target[0]).len() == j0);
            if target.len() == 1 {
                assert(data[j0] != 44u8);
            } else {
                assert(forall|q: int|
                    0 <= q < target.drop_first().len() ==> #[trigger] target.drop_first()[q]
                        == target[q + 1]);
                assert(sessions_at(data, j0 + 1, target.drop_first()));
            }
        }
    }
}

proof fn lemma_sessions_complete_head_fail(data: Seq<u8>, i: int)
    requires
        0 <= i,
        forall|s: Session|
            !(session_valid(s) && i + render_session(s).len() <= data.len()
                && #[trigger] data.subrange(i, i + render_session(s).len()) == render_session(s)),
    ensures
        forall|target: Seq<Session>| !#[trigger] sessions_at(data, i, target),
{
    lemma_sessions_render_shape(data, i);
    assert forall|target: Seq<Session>| !#[trigger] sessions_at(data, i, target) by {
        if sessions_at(data, i, target) {
            assert(data.subrange(i, i + render_session(target[0]).len()) == render_session(
                target[0],
            ));
            assert(session_valid(target[0]));
        }
    }
}

#[verifier::rlimit(100)]
fn parse_sessions(data: &Vec<u8>, i: usize) -> (r: Option<(Vec<Session>, usize)>)
    requires
        i <= data@.len(),
    ensures
        r matches Some((vs, j)) ==> sessions_wf(vs@) && i < j && j <= data@.len()
            && data@.subrange(i as int, j as int) == render_sessions(vs@),
        forall|target: Seq<Session>|
            sessions_at(data@, i as int, target) ==> (r matches Some((vs, j)) && vs@ == target
                && j == i + render_sessions(target).len()),
    decreases data@.len() - i,
{
    let (s0, j0) = match parse_session(data, i) {
        Some(x) => x,
        None => {
            proof {
                lemma_sessions_complete_head_fail(data@, i as int);
            }
            return None;
        },
    };
    proof {
        assert(head_session_at(data@, i as int, s0, j0 as int));
    }
    if j0 < data.len() && data[j0] == 44 {
        match parse_sessions(data, j0 + 1) {
            Some((rest, j)) => {
                let ghost rest0 = rest@;
                let mut out = rest;
                out.insert(0, s0);
                proof {
                    assert(out@ =~= seq![s0] + rest0);
                    assert(out@.drop_first() =~= rest0);
                    assert(out@[0] == s0);
                    lemma_render_sessions_head(out@);
                    assert(render_sessions(out@) == render_session(s0) + seq![44u8]
                        + render_sessions(rest0));
                    assert(data@.subrange(j0 as int, j0 as int + 1) =~= seq![44u8]);
                    assert(data@.subrange(i as int, j as int) =~= data@.subrange(
                        i as int,
                        j0 as int,
                    ) + data@.subrange(j0 as int, j0 as int + 1) + data@.subrange(
                        j0 as int + 1,
                        j as int,
                    ));
                    assert(data@.subrange(i as int, j as int) =~= render_sessions(out@));
                    assert forall|q: int| 0 <= q < out@.len() implies session_valid(
                        #[trigger] out@[q],
                    ) by {
                        if q >= 1 {
                            assert(out@[q] == rest0[q - 1]);
                        }
                    }
                    lemma_sessions_complete_cons(data@, i as int, s0, j0 as int, rest0, j as int);
                }
                Some((out, j))
            },
            None => {
                proof {
                    lemma_sessions_complete_tail_fail(data@, i as int, s0, j0 as int);
                }
                None
            },
        }
    } else {
        let mut out: Vec<Session> = Vec::new();
        out.push(s0);
        proof {
            assert(out@ =~= seq![s0]);
            assert(render_sessions(out@) == render_session(s0));
            lemma_sessions_complete_one(data@, i as int, s0, j0 as int);
        }
        Some((out, j0))
    }
}

/// The completeness hypothesis for one entry: `e`'s canonical bytes sit at
/// position `i`.
spec fn entry_at(data: Seq<u8>, i: int, e: (DateKey, Seq<Session>)) -> bool {
    &&& date_valid(e.0)
    &&& sessions_wf(e.1)
    &&& i + render_entry(e).len() <= data.len()
    &&& data.subrange(i, i + render_entry(e).len()) == render_entry(e)
}

/// How the canonical bytes of one entry decompose around position `ii`.
#[verifier::rlimit(100)]
proof fn lemma_entry_render_shape(data: Seq<u8>, ii: int)
    requires
        0 <= ii,
    ensures
        forall|e: (DateKey, Seq<Session>)|
            #[trigger] entry_at(data, ii, e) ==> render_entry(e).len() == 15 + render_sessions(
                e.1,
            ).len() && data[ii] == 34u8 && data.subrange(ii + 1, ii + 11) == render_date(e.0)
                && data[ii + 11] == 34u8 && data[ii + 12] == 58u8 && data[ii + 13] == 91u8
                && sessions_at(data, ii + 14, e.1) && data[ii + 14 + render_sessions(e.1).len()]
                == 93u8,
{
    assert forall|e: (DateKey, Seq<Session>)| #[trigger] entry_at(data, ii, e) implies
        render_entry(e).len() == 15 + render_sessions(e.1).len() && data[ii] == 34u8
        && data.subrange(ii + 1, ii + 11) == render_date(e.0) && data[ii + 11] == 34u8 && data[ii
        + 12] == 58u8 && data[ii + 13] == 91u8 && sessions_at(data, ii + 14, e.1) && data[ii + 14
        + render_sessions(e.1).len()] == 93u8 by {
        let rr = render_entry(e);
        let ll = render_sessions(e.1).len() as int;
        assert(rr.len() == 15 + ll);
        assert(rr.subrange(1, 11) =~= render_date(e.0));
        assert(rr.subrange(14, 14 + ll) =~= render_sessions(e.1));
        assert(data.subrange(ii + 1, ii + 11) =~= data.subrange(ii, ii + 15 + ll).subrange(
            1,
            11,
        ));
        assert(data.subrange(ii + 14, ii + 14 + ll) =~= data.subrange(ii, ii + 15 + ll).subrange(
            14,
            14 + ll,
        ));
        assert(data[ii] == rr[0] && data[ii + 11] == rr[11] && data[ii + 12] == rr[12] && data[ii
            + 13] == rr[13] && data[ii + 14 + ll] == rr[14 + ll]);
        assert(data[ii + 14 + ll] == 93u8);
    }
}

#[verifier::rlimit(100)]
fn parse_entry(data: &Vec<u8>, i: usize) -> (r: Option<(DayRecord, usize)>)
    requires
        i <= data@.len(),
    ensures
        r matches Some((rec, j)) ==> date_valid(rec.date) && sessions_wf(rec.sessions@) && i < j
            && j <= data@.len() && data@.subrange(i as int, j as int) == render_entry(
            (rec.date, rec.sessions@),
        ),
        forall|e: (DateKey, Seq<Session>)|
            #[trigger] entry_at(data@, i as int, e) ==> (r matches Some((rec, j)) && rec.date
                == e.0 && rec.sessions@ == e.1 && j == i + render_entry(e).len()),
{
    proof {
        lemma_entry_render_shape(data@, i as int);
    }
    let j1 = match expect(data, i, 34) {
        Some(x) => x,
        None => {
            return None;
        },
    };
    let (d, j2) = match parse_date(data, j1) {
        Some(x) => x,
        None => {
            return None;
        },
    };
    let j3 = match expect(data, j2, 34) {
        Some(x) => x,
        None => {
            return None;
        },
    };
    let j4 = match expect(data, j3, 58) {
        Some(x) => x,
        None => {
            return None;
        },
    };
    let j5 = match expect(data, j4, 91) {
        Some(x) => x,
        None => {
            return None;
        },
    };
    let (vs, j6) = match parse_sessions(data, j5) {
        Some(x) => x,
        None => {
            return None;
        },
    };
    let j7 = match expect(data, j6, 93) {
        Some(x) => x,
        None => {
            return None;
        },
    };
    let rec = DayRecord { date: d, sessions: vs };
    proof {
        let ii = i as int;
        assert(data@.subrange(ii, j7 as int) =~= data@.subrange(ii, j1 as int) + data@.subrange(
            j1 as int,
            j2 as int,
        ) + data@.subrange(j2 as int, j5 as int) + data@.subrange(j5 as int, j6 as int)
            + data@.subrange(j6 as int, j7 as int));
        assert(data@.subrange(ii, j1 as int) =~= seq![34u8]);
        assert(data@.subrange(j2 as int, j5 as int) =~= seq![34u8, 58u8, 91u8]);
        assert(data@.subrange(j6 as int, j7 as int) =~= seq![93u8]);
        assert(data@.subrange(ii, j7 as int) =~= render_entry((rec.date, rec.sessions@)));
    }
    Some((rec, j7))
}

/// The records as the model sequence the renderer is defined over.
pub open spec fn recs_model(rs: Seq<DayRecord>) -> Seq<(DateKey, Seq<Session>)> {
    rs.map_values(|r: DayRecord| (r.date, r.sessions@))
}

fn contains_date(recs: &Vec<DayRecord>, d: &DateKey) -> (b: bool)
    ensures
        b == exists|k: int| 0 <= k < recs@.len() && (#[trigger] recs@[k]).date == *d,
{
    let mut k: usize = 0;
    while k < recs.len()
        invariant
            k <= recs.len(),
            forall|k2: int| 0 <= k2 < k ==> (#[trigger] recs@[k2]).date != *d,
        decreases recs.len() - k,
    {
        if recs[k].date == *d {
            return true;
        }
        k = k + 1;
    }
    false
}

/// The completeness hypothesis for an entry list: `target`'s canonical
/// bytes sit at `i`, its dates are distinct, and no comma follows them.
spec fn entries_at(data: Seq<u8>, i: int, target: Seq<(DateKey, Seq<Session>)>) -> bool {
    &&& target.len() >= 1
    &&& forall|k: int|
        0 <= k < target.len() ==> date_valid((#[trigger] target[k]).0) && sessions_wf(target[k].1)
    &&& forall|k1: int, k2: int|
        0 <= k1 < k2 < target.len() ==> (#[trigger] target[k1]).0 != (#[trigger] target[k2]).0
    &&& i + render_entries(target).len() <= data.len()
    &&& data.subrange(i, i + render_entries(target).len()) == render_entries(target)
    &&& (i + render_entries(target).len() == data.len() || data[i + render_entries(
        target,
    ).len()] != 44u8)
}

/// The head form of `render_entries`: the first entry's bytes, then a comma
/// and the rest.
proof fn lemma_render_entries_head(m: Seq<(DateKey, Seq<Session>)>)
    requires
        m.len() >= 1,
    ensures
        m.len() == 1 ==> render_entries(m) == render_entry(m[0]),
        m.len() >= 2 ==> render_entries(m) == render_entry(m[0]) + seq![44u8] + render_entries(
            m.drop_first(),
        ),
    decreases m.len(),
{
    if m.len() >= 2 {
        let dl = m.drop_last();
        lemma_render_entries_head(dl);
        if m.len() == 2 {
            assert(dl.len() == 1 && dl[0] == m[0]);
            assert(m.drop_first().len() == 1 && m.drop_first()[0] == m[1]);
            assert(render_entries(m.drop_first()) == render_entry(m[1]));
            assert(render_entries(m) == render_entry(m[0]) + seq![44u8] + render_entry(m[1]));
        } else {
            assert(m.drop_first().drop_last() =~= dl.drop_first());
            assert(m.drop_first().last() == m.last());
            assert(m.drop_first().len() >= 2);
            assert(render_entries(m.drop_first()) == render_entries(dl.drop_first()) + seq![44u8]
                + render_entry(m.last()));
            assert(dl[0] == m[0]);
            assert(render_entries(m) =~= render_entry(m[0]) + seq![44u8] + render_entries(
                m.drop_first(),
            ));
        }
    }
}

/// How the canonical bytes of an entry list decompose around position `ii`.
#[verifier::rlimit(100)]
proof fn lemma_entries_render_shape(data: Seq<u8>, ii: int)
    requires
        0 <= ii,
    ensures
        forall|target: Seq<(DateKey, Seq<Session>)>|
            #[trigger] entries_at(data, ii, target) ==> entry_at(data, ii, target[0]) && (
            target.len() == 1 ==> render_entries(target).len() == render_entry(target[0]).len())
                && (target.len() >= 2 ==> render_entries(target).len() == render_entry(
                target[0],
            ).len() + 1 + render_entries(target.drop_first()).len() && data[ii + render_entry(
                target[0],
            ).len()] == 44u8 && entries_at(
                data,
                ii + render_entry(target[0]).len() + 1,
                target.drop_first(),
            )),
{
    assert forall|target: Seq<(DateKey, Seq<Session>)>|
        #[trigger] entries_at(data, ii, target) implies entry_at(data, ii, target[0]) && (
    target.len() == 1 ==> render_entries(target).len() == render_entry(target[0]).len()) && (
    target.len() >= 2 ==> render_entries(target).len() == render_entry(target[0]).len() + 1
        + render_entries(target.drop_first()).len() && data[ii + render_entry(target[0]).len()]
        == 44u8 && entries_at(
        data,
        ii + render_entry(target[0]).len() + 1,
        target.drop_first(),
    )) by {
        lemma_render_entries_head(target);
        let l0 = render_entry(target[0]).len() as int;
        let ll = render_entries(target).len() as int;
        if target.len() == 1 {
            assert(data.subrange(ii, ii + l0) == render_entry(target[0]));
            assert(entry_at(data, ii, target[0]));
        } else {
            assert(render_entries(target).subrange(0, l0) =~= render_entry(target[0]));
            assert(data.subrange(ii, ii + l0) =~= data.subrange(ii, ii + ll).subrange(0, l0));
            assert(entry_at(data, ii, target[0]));
            assert(data[ii + l0] == render_entries(target)[l0]);
            assert(render_entries(target).subrange(l0 + 1, ll) =~= render_entries(
                target.drop_first(),
            ));
            assert(data.subrange(ii + l0 + 1, ii + ll) =~= data.subrange(ii, ii + ll).subrange(
                l0 + 1,
                ll,
            ));
            assert(forall|q: int|
                0 <= q < target.drop_first().len() ==> #[trigger] target.drop_first()[q]
                    == target[q + 1]);
            assert(entries_at(data, ii + l0 + 1, target.drop_first()));
        }
    }
}

/// The head entry of a maximal list is determined.
spec fn head_entry_at(data: Seq<u8>, i: int, e0: (DateKey, Seq<Session>), j0: int) -> bool {
    forall|e: (DateKey, Seq<Session>)|
        #[trigger] entry_at(data, i, e) ==> e == e0 && i + render_entry(e).len() == j0
}

#[verifier::rlimit(100)]
proof fn lemma_entries_complete_one(
    data: Seq<u8>,
    i: int,
    e0: (DateKey, Seq<Session>),
    j0: int,
)
    requires
        0 <= i,
        head_entry_at(data, i, e0, j0),
        j0 == data.len() || data[j0] != 44u8,
    ensures
        forall|target: Seq<(DateKey, Seq<Session>)>|
            #[trigger] entries_at(data, i, target) ==> target == seq![e0] && i + render_entries(
                target,
            ).len() == j0,
{
    lemma_entries_render_shape(data, i);
    assert forall|target: Seq<(DateKey, Seq<Session>)>|
        #[trigger] entries_at(data, i, target) implies target == seq![e0] && i + render_entries(
        target,
    ).len() == j0 by {
        assert(entry_at(data, i, target[0]));
        assert(target[0] == e0 && i + render_entry(target[0]).len() == j0);
        if target.len() >= 2 {
            assert(data[j0] == 44u8 && j0 < data.len());
            assert(false);
        }
        assert(target =~= seq![e0]);
    }
}

#[verifier::rlimit(100)]
proof fn lemma_entries_complete_cons(
    data: Seq<u8>,
    i: int,
    e0: (DateKey, Seq<Session>),
    j0: int,
    rest: Seq<(DateKey, Seq<Session>)>,
    j: int,
)
    requires
        0 <= i,
        head_entry_at(data, i, e0, j0),
        0 <= j0 < data.len(),
        data[j0] == 44u8,
        forall|target: Seq<(DateKey, Seq<Session>)>|
            #[trigger] entries_at(data, j0 + 1, target) ==> rest == target && j == j0 + 1
                + render_entries(target).len(),
    ensures
        forall|target: Seq<(DateKey, Seq<Session>)>|
            #[trigger] entries_at(data, i, target) ==> seq![e0] + rest == target && j == i
                + render_entries(target).len(),
{
    lemma_entries_render_shape(data, i);
    assert forall|target: Seq<(DateKey, Seq<Session>)>|
        #[trigger] entries_at(data, i, target) implies seq![e0] + rest == target && j == i
        + render_entries(target).len() by {
        assert(entry_at(data, i, target[0]));
        assert(target[0] == e0 && i + render_entry(target[0]).len() == j0);
        if target.len() == 1 {
            assert(data[j0] != 44u8);
            assert(false);
        } else {
            assert(entries_at(data, j0 + 1, target.drop_first()));
            assert(rest == target.drop_first() && j == j0 + 1 + render_entries(
                target.drop_first(),
            ).len());
            assert(seq![e0] + rest =~= target);
        }
    }
}

proof fn lemma_entries_complete_tail_fail(
    data: Seq<u8>,
    i: int,
    e0: (DateKey, Seq<Session>),
    j0: int,
)
    requires
        0 <= i,
        head_entry_at(data, i, e0, j0),
        0 <= j0 < data.len(),
        data[j0] == 44u8,
        forall|target: Seq<(DateKey, Seq<Session>)>| !#[trigger] entries_at(data, j0 + 1, target),
    ensures
        forall|target: Seq<(DateKey, Seq<Session>)>| !#[trigger] entries_at(data, i, target),
{
    lemma_entries_render_shape(data, i);
    assert forall|target: Seq<(DateKey, Seq<Session>)>|
        !#[trigger] entries_at(data, i, target) by {
        if entries_at(data, i, target) {
            assert(entry_at(data, i, target[0]));
            assert(target[0] == e0 && i + render_entry(target[0]).len() == j0);
            if target.len() == 1 {
                assert(data[j0] != 44u8);
            } else {
                assert(entries_at(data, j0 + 1, target.drop_first()));
            }
        }
    }
}

proof fn lemma_entries_complete_head_fail(data: Seq<u8>, i: int)
    requires
        0 <= i,
        forall|e: (DateKey, Seq<Session>)| !#[trigger] entry_at(data, i, e),
    ensures
        forall|target: Seq<(DateKey, Seq<Session>)>| !#[trigger] entries_at(data, i, target),
{
    lemma_entries_render_shape(data, i);
    assert forall|target: Seq<(DateKey, Seq<Session>)>|
        !#[trigger] entries_at(data, i, target) by {
        if entries_at(data, i, target) {
            assert(entry_at(data, i, target[0]));
        }
    }
}

/// A duplicated head date contradicts the distinctness in `entries_at`.
proof fn lemma_entries_complete_dup(
    data: Seq<u8>,
    i: int,
    e0: (DateKey, Seq<Session>),
    j0: int,
    rest: Seq<(DateKey, Seq<Session>)>,
    j: int,
)
    requires
        0 <= i,
        head_entry_at(data, i, e0, j0),
        0 <= j0 < data.len(),
        data[j0] == 44u8,
        forall|target: Seq<(DateKey, Seq<Session>)>|
            #[trigger] entries_at(data, j0 + 1, target) ==> rest == target && j == j0 + 1
                + render_entries(target).len(),
        exists|k: int| 0 <= k < rest.len() && (#[trigger] rest[k]).0 == e0.0,
    ensures
        forall|target: Seq<(DateKey, Seq<Session>)>| !#[trigger] entries_at(data, i, target),
{
    lemma_entries_render_shape(data, i);
    assert forall|target: Seq<(DateKey, Seq<Session>)>|
        !#[trigger] entries_at(data, i, target) by {
        if entries_at(data, i, target) {
            assert(entry_at(data, i, target[0]));
            assert(target[0] == e0 && i + render_entry(target[0]).len() == j0);
            if target.len() == 1 {
                assert(data[j0] != 44u8);
            } else {
                assert(entries_at(data, j0 + 1, target.drop_first()));
                assert(rest == target.drop_first());
                let k = choose|k: int| 0 <= k < rest.len() && (#[trigger] rest[k]).0 == e0.0;
                assert(target.drop_first()[k] == target[k + 1]);
                assert(target[k + 1].0 == target[0].0);
            }
        }
    }
}

#[verifier::rlimit(100)]
fn parse_entries(data: &Vec<u8>, i: usize) -> (r: Option<(Vec<DayRecord>, usize)>)
    requires
        i <= data@.len(),
    ensures
        r matches Some((recs, j)) ==> recs@.len() >= 1 && i < j && j <= data@.len()
            && data@.subrange(i as int, j as int) == render_entries(recs_model(recs@)) && (forall|
            k: int,
        |
            0 <= k < recs@.len() ==> date_valid((#[trigger] recs@[k]).date) && sessions_wf(
                recs@[k].sessions@,
            )) && (forall|k1: int, k2: int|
            0 <= k1 < k2 < recs@.len() ==> (#[trigger] recs@[k1]).date
                != (#[trigger] recs@[k2]).date),
        forall|target: Seq<(DateKey, Seq<Session>)>|
            #[trigger] entries_at(data@, i as int, target) ==> (r matches Some((recs, j))
                && recs_model(recs@) == target && j == i + render_entries(target).len()),
    decreases data@.len() - i,
{
    let (rec0, j0) = match parse_entry(data, i) {
        Some(x) => x,
        None => {
            proof {
                lemma_entries_complete_head_fail(data@, i as int);
            }
            return None;
        },
    };
    let ghost e0 = (rec0.date, rec0.sessions@);
    proof {
        assert(head_entry_at(data@, i as int, e0, j0 as int));
    }
    if j0 < data.len() && data[j0] == 44 {
        match parse_entries(data, j0 + 1) {
            Some((rest, j)) => {
                let ghost rest0 = recs_model(rest@);
                if contains_date(&rest, &rec0.date) {
                    proof {
                        let k = choose|k: int|
                            0 <= k < rest@.len() && (#[trigger] rest@[k]).date == rec0.date;
                        assert(rest0[k].0 == rec0.date);
                        lemma_entries_complete_dup(
                            data@,
                            i as int,
                            e0,
                            j0 as int,
                            rest0,
                            j as int,
                        );
                    }
                    return None;
                }
                let ghost restv = rest@;
                let mut out = rest;
                out.insert(0, rec0);
                proof {
                    assert(out@.drop_first() =~= restv);
                    assert(out@[0].date == e0.0 && out@[0].sessions@ == e0.1);
                    assert(recs_model(out@) =~= seq![e0] + rest0);
                    assert(recs_model(out@).drop_first() =~= rest0);
                    assert(recs_model(out@)[0] == e0);
                    lemma_render_entries_head(recs_model(out@));
                    assert(render_entries(recs_model(out@)) == render_entry(e0) + seq![44u8]
                        + render_entries(rest0));
                    assert(data@.subrange(j0 as int, j0 as int + 1) =~= seq![44u8]);
                    assert(data@.subrange(i as int, j as int) =~= data@.subrange(
                        i as int,
                        j0 as int,
                    ) + data@.subrange(j0 as int, j0 as int + 1) + data@.subrange(
                        j0 as int + 1,
                        j as int,
                    ));
                    assert(data@.subrange(i as int, j as int) =~= render_entries(
                        recs_model(out@),
                    ));
                    assert forall|k: int| 0 <= k < out@.len() implies date_valid(
                        (#[trigger] out@[k]).date,
                    ) && sessions_wf(out@[k].sessions@) by {
                        if k >= 1 {
                            assert(out@[k] == restv[k - 1]);
                        }
                    }
                    assert forall|k1: int, k2: int| 0 <= k1 < k2 < out@.len() implies
                        (#[trigger] out@[k1]).date != (#[trigger] out@[k2]).date by {
                        if k1 >= 1 {
                            assert(out@[k1] == restv[k1 - 1] && out@[k2] == restv[k2 - 1]);
                        } else {
                            assert(out@[k2] == restv[k2 - 1]);
                        }
                    }
                    lemma_entries_complete_cons(data@, i as int, e0, j0 as int, rest0, j as int);
                }
                Some((out, j))
            },
            None => {
                proof {
                    lemma_entries_complete_tail_fail(data@, i as int, e0, j0 as int);
                }
                None
            },
        }
    } else {
        let mut out: Vec<DayRecord> = Vec::new();
        out.push(rec0);
        proof {
            assert(recs_model(out@) =~= seq![e0]);
            assert(render_entries(recs_model(out@)) == render_entry(e0));
            lemma_entries_complete_one(data@, i as int, e0, j0 as int);
        }
        Some((out, j0))
    }
}

/// How a whole canonical snapshot decomposes: the header, the entry list
/// (for a nonempty store), and the two closing braces.
#[verifier::rlimit(100)]
proof fn lemma_snapshot_render_shape(data: Seq<u8>)
    ensures
        forall|mm: Seq<(DateKey, Seq<Session>)>|
            store_wf(mm) && data == #[trigger] render_snapshot(mm) ==> data.len() == 14
                + render_entries(mm).len() && data.subrange(0, 12) == header() && (mm.len() == 0
                ==> data.len() == 14 && data[12] == 125u8 && data[13] == 125u8) && (mm.len() >= 1
                ==> entries_at(data, 12, mm) && data[12] == 34u8 && data[12 + render_entries(
                mm,
            ).len() as int] == 125u8 && data[13 + render_entries(mm).len() as int] == 125u8),
{
    assert forall|mm: Seq<(DateKey, Seq<Session>)>|
        store_wf(mm) && data == #[trigger] render_snapshot(mm) implies data.len() == 14
        + render_entries(mm).len() && data.subrange(0, 12) == header() && (mm.len() == 0
        ==> data.len() == 14 && data[12] == 125u8 && data[13] == 125u8) && (mm.len() >= 1
        ==> entries_at(data, 12, mm) && data[12] == 34u8 && data[12 + render_entries(
        mm,
    ).len() as int] == 125u8 && data[13 + render_entries(mm).len() as int] == 125u8) by {
        let ll = render_entries(mm).len() as int;
        assert(data.len() == 14 + ll);
        assert(data.subrange(0, 12) =~= header());
        assert(data[12 + ll] == 125u8 && data[13 + ll] == 125u8);
        if mm.len() >= 1 {
            lemma_render_entries_head(mm);
            assert(data.subrange(12, 12 + ll) =~= render_entries(mm));
            assert(render_entries(mm)[0] == render_entry(mm[0])[0]);
            assert(data[12] == render_entries(mm)[0]);
            assert(entries_at(data, 12, mm));
        }
    }
}

#[verifier::rlimit(100)]
fn parse_snapshot(data: &Vec<u8>) -> (r: Option<SessionStore>)
    ensures
        r matches Some(s) ==> store_wf(s@) && render_snapshot(s@) == data@,
        forall|mm: Seq<(DateKey, Seq<Session>)>|
            store_wf(mm) && data@ == #[trigger] render_snapshot(mm) ==> (r matches Some(s) && s@
                == mm),
{
    proof {
        lemma_snapshot_render_shape(data@);
    }
    if data.len() < 12 {
        return None;
    }
    if !(data[0] == 123 && data[1] == 34 && data[2] == 114 && data[3] == 101 && data[4] == 99
        && data[5] == 111 && data[6] == 114 && data[7] == 100 && data[8] == 115 && data[9] == 34
        && data[10] == 58 && data[11] == 123) {
        proof {
            assert forall|mm: Seq<(DateKey, Seq<Session>)>|
                store_wf(mm) && data@ == #[trigger] render_snapshot(mm) implies false by {
                assert(data@[0] == header()[0] && data@[1] == header()[1] && data@[2] == header()[2]
                    && data@[3] == header()[3] && data@[4] == header()[4] && data@[5]
                    == header()[5] && data@[6] == header()[6] && data@[7] == header()[7] && data@[8]
                    == header()[8] && data@[9] == header()[9] && data@[10] == header()[10]
                    && data@[11] == header()[11]);
            }
        }
        return None;
    }
    proof {
        assert(data@.subrange(0, 12) =~= header());
    }
    if data.len() >= 13 && data[12] == 125 {
        if data.len() == 14 && data[13] == 125 {
            let s = SessionStore::empty();
            proof {
                assert(render_entries(s@) == Seq::<u8>::empty());
                assert(render_snapshot(s@) =~= data@);
                assert forall|mm: Seq<(DateKey, Seq<Session>)>|
                    store_wf(mm) && data@ == #[trigger] render_snapshot(mm) implies s@ == mm by {
                    if mm.len() >= 1 {
                        assert(data@[12] == 34u8);
                        assert(false);
                    }
                    assert(mm =~= s@);
                }
            }
            Some(s)
        } else {
            None
        }
    } else {
        let (recs, j) = match parse_entries(data, 12) {
            Some(x) => x,
            None => {
                return None;
            },
        };
        let j2 = match expect(data, j, 125) {
            Some(x) => x,
            None => {
                return None;
            },
        };
        let j3 = match expect(data, j2, 125) {
            Some(x) => x,
            None => {
                return None;
            },
        };
        if j3 == data.len() {
            let s = SessionStore { records: recs };
            proof {
                assert(s@ =~= recs_model(recs@));
                assert forall|k: int| 0 <= k < s@.len() implies date_valid((#[trigger] s@[k]).0)
                    && sessions_wf(s@[k].1) by {
                    assert(s@[k] == (recs@[k].date, recs@[k].sessions@));
                }
                assert forall|k1: int, k2: int| 0 <= k1 < k2 < s@.len() implies
                    (#[trigger] s@[k1]).0 != (#[trigger] s@[k2]).0 by {
                    assert(s@[k1].0 == recs@[k1].date && s@[k2].0 == recs@[k2].date);
                }
                assert(store_wf(s@));
                assert(data@.subrange(j as int, j3 as int) =~= seq![125u8, 125u8]);
                assert(data@ =~= data@.subrange(0, 12) + data@.subrange(12, j as int)
                    + data@.subrange(j as int, j3 as int));
                assert(render_snapshot(s@) =~= data@);
            }
            Some(s)
        } else {
            None
        }
    }
}

impl SessionStore {
    /// Rebuild a store from snapshot bytes. Anything that is not a
    /// well-formed snapshot — empty input, malformed text, an invalid date
    /// or time, a duplicated date, an end not after its start — yields the
    /// empty store with `false` as the flag (a diagnostic, not an abort).
    /// On success the returned store is well-formed and re-serializes to
    /// exactly the input bytes.
    pub fn load(data: &Vec<u8>) -> (r: (SessionStore, bool))
        ensures
            store_wf(r.0@),
            r.1 ==> render_snapshot(r.0@) == data@,
            !r.1 ==> r.0@.len() == 0,
            forall|mm: Seq<(DateKey, Seq<Session>)>|
                store_wf(mm) && data@ == #[trigger] render_snapshot(mm) ==> r.1 && r.0@ == mm,
    {
        match parse_snapshot(data) {
            Some(s) => (s, true),
            None => (SessionStore::empty(), false),
        }
    }
}

} // verus!
