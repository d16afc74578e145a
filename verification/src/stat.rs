//! The statistics record: lifecycle counters and their snapshot history.
//!
//! Counters are plain integers; a snapshot is recorded only when it differs
//! from its predecessor, so the history is a compressed trace of state
//! changes.  The CSV rendering is a pure function of the entry; writing it
//! anywhere is the caller's affair.

use vstd::prelude::*;
use vstd::string::StringExecFns;

verus! {

/// The pool's counters.  `request_initiated_count` is reserved: nothing
/// increments it.
#[derive(Copy, Clone, Debug, PartialEq, Eq, Structural)]
pub struct ConnectionStatistics {
    pub connection_new_count: i64,
    pub connection_living_count: i64,
    pub connection_connecting_count: i64,
    pub request_initiated_count: i64,
    pub request_pending_count: i64,
    pub request_sent_count: i64,
    pub response_ok_count: i64,
    pub response_bad_count: i64,
}

/// All counters at zero.
pub open spec fn stats_zero() -> ConnectionStatistics {
    ConnectionStatistics {
        connection_new_count: 0,
        connection_living_count: 0,
        connection_connecting_count: 0,
        request_initiated_count: 0,
        request_pending_count: 0,
        request_sent_count: 0,
        response_ok_count: 0,
        response_bad_count: 0,
    }
}

impl Default for ConnectionStatistics {
    fn default() -> (r: Self)
        ensures
            r == stats_zero(),
    {
        ConnectionStatistics {
            connection_new_count: 0,
            connection_living_count: 0,
            connection_connecting_count: 0,
            request_initiated_count: 0,
            request_pending_count: 0,
            request_sent_count: 0,
            response_ok_count: 0,
            response_bad_count: 0,
        }
    }
}

/// One snapshot: the counters as they stood at `time`, given in
/// microseconds since the epoch by the driving task's clock.
#[derive(Copy, Clone, Debug, PartialEq, Eq, Structural)]
pub struct ConnectionStatisticsEntry {
    pub time: u64,
    pub stat: ConnectionStatistics,
}

pub open spec fn digit_char(d: nat) -> char {
    if d == 0 {
        '0'
    } else if d == 1 {
        '1'
    } else if d == 2 {
        '2'
    } else if d == 3 {
        '3'
    } else if d == 4 {
        '4'
    } else if d == 5 {
        '5'
    } else if d == 6 {
        '6'
    } else if d == 7 {
        '7'
    } else if d == 8 {
        '8'
    } else {
        '9'
    }
}

/// The decimal digits of `n`, most significant first.
pub open spec fn dec_digits(n: nat) -> Seq<char>
    decreases n,
{
    if n < 10 {
        seq![digit_char(n)]
    } else {
        dec_digits(n / 10) + seq![digit_char(n % 10)]
    }
}

/// The decimal rendering of a signed value.
pub open spec fn i64_dec(v: int) -> Seq<char> {
    if v < 0 {
        seq!['-'] + dec_digits((-v) as nat)
    } else {
        dec_digits(v as nat)
    }
}

fn digit_str(d: u64) -> (r: &'static str)
    requires
        d < 10,
    ensures
        r@ == seq![digit_char(d as nat)],
{
    proof {
        reveal_strlit("0");
        reveal_strlit("1");
        reveal_strlit("2");
        reveal_strlit("3");
        reveal_strlit("4");
        reveal_strlit("5");
        reveal_strlit("6");
        reveal_strlit("7");
        reveal_strlit("8");
        reveal_strlit("9");
    }
    match d {
        0 => "0",
        1 => "1",
        2 => "2",
        3 => "3",
        4 => "4",
        5 => "5",
        6 => "6",
        7 => "7",
        8 => "8",
        _ => "9",
    }
}

/// The digit characters of `ds` read back to front.
spec fn chars_rev(ds: Seq<u64>) -> Seq<char>
    decreases ds.len(),
{
    if ds.len() == 0 {
        Seq::empty()
    } else {
        seq![digit_char(ds.last() as nat)] + chars_rev(ds.drop_last())
    }
}

fn u64_to_string(n: u64) -> (s: String)
    ensures
        s@ == dec_digits(n as nat),
{
    let mut digits: Vec<u64> = Vec::new();
    let mut x = n;
    loop
        invariant_except_break
            digits@.len() == 0 ==> x == n,
            digits@.len() > 0 ==> x > 0 && dec_digits(n as nat) == dec_digits(x as nat)
                + chars_rev(digits@),
        invariant
            forall|i: int| 0 <= i < digits@.len() ==> #[trigger] digits@[i] < 10,
        ensures
            forall|i: int| 0 <= i < digits@.len() ==> #[trigger] digits@[i] < 10,
            dec_digits(n as nat) == chars_rev(digits@),
        decreases x,
    {
        let ghost pre = digits@;
        proof {
            if pre.len() == 0 {
                assert(dec_digits(x as nat) + chars_rev(pre) =~= dec_digits(x as nat));
            }
        }
        let d = x % 10;
        let x2 = x / 10;
        digits.push(d);
        proof {
            assert(digits@.drop_last() =~= pre);
            assert(chars_rev(digits@) == seq![digit_char(d as nat)] + chars_rev(pre));
            if x2 > 0 {
                assert(x >= 10 && x2 < x) by (nonlinear_arith)
                    requires
                        x2 == x / 10,
                        x2 > 0,
                ;
                assert(dec_digits(x as nat) == dec_digits((x as nat) / 10) + seq![
                    digit_char((x as nat) % 10),
                ]);
                assert((x as nat) / 10 == x2 as nat && (x as nat) % 10 == d as nat);
                assert(dec_digits(x2 as nat) + (seq![digit_char(d as nat)] + chars_rev(pre))
                    =~= (dec_digits(x2 as nat) + seq![digit_char(d as nat)]) + chars_rev(pre));
            } else {
                assert(x < 10) by (nonlinear_arith)
                    requires
                        x2 == x / 10,
                        x2 == 0,
                        x >= 0,
                ;
                assert(d == x);
                assert(dec_digits(x as nat) == seq![digit_char(d as nat)]);
                assert(dec_digits(n as nat) =~= chars_rev(digits@));
            }
        }
        x = x2;
        if x == 0 {
            break;
        }
    }
    let mut s = String::new();
    let mut k = digits.len();
    proof {
        assert(digits@.take(k as int) =~= digits@);
        assert(s@ + chars_rev(digits@.take(k as int)) =~= dec_digits(n as nat));
    }
    while k > 0
        invariant
            k <= digits@.len(),
            forall|i: int| 0 <= i < digits@.len() ==> #[trigger] digits@[i] < 10,
            s@ + chars_rev(digits@.take(k as int)) == dec_digits(n as nat),
        decreases k,
    {
        k = k - 1;
        let piece = digit_str(digits[k]);
        let ghost pre = s@;
        s.append(piece);
        proof {
            let ghost t = digits@.take(k as int + 1);
            assert(t.last() == digits@[k as int]);
            assert(t.drop_last() =~= digits@.take(k as int));
            assert(chars_rev(t) == seq![digit_char(digits@[k as int] as nat)] + chars_rev(
                digits@.take(k as int),
            ));
            assert(pre + (seq![digit_char(digits@[k as int] as nat)] + chars_rev(
                digits@.take(k as int),
            )) =~= (pre + seq![digit_char(digits@[k as int] as nat)]) + chars_rev(
                digits@.take(k as int),
            ));
        }
    }
    proof {
        assert(digits@.take(0) =~= Seq::<u64>::empty());
        assert(s@ + chars_rev(digits@.take(0)) =~= s@);
    }
    s
}

fn i64_to_string(v: i64) -> (s: String)
    ensures
        s@ == i64_dec(v as int),
{
    if v >= 0 {
        u64_to_string(v as u64)
    } else {
        let mut s = String::from_str("-");
        proof {
            reveal_strlit("-");
            assert(s@ =~= seq!['-']);
        }
        let magnitude: u64 = ((-(v + 1)) as u64) + 1;
        let rest = u64_to_string(magnitude);
        s.append(rest.as_str());
        s
    }
}

/// The CSV header line, one column per counter after the timestamp.
pub open spec fn csv_header_line() -> Seq<char> {
    "time, connection_new_count, connection_living_count, connection_connecting_count, request_initiated_count, request_pending_count, request_sent_count, response_ok_count, response_bad_count\n"@
}

/// The CSV rendering of one entry: the timestamp and each counter in header
/// order, comma separated, newline terminated.
pub open spec fn csv_line_of(e: ConnectionStatisticsEntry) -> Seq<char> {
    dec_digits(e.time as nat) + ", "@ + i64_dec(e.stat.connection_new_count as int) + ", "@
        + i64_dec(e.stat.connection_living_count as int) + ", "@ + i64_dec(
        e.stat.connection_connecting_count as int,
    ) + ", "@ + i64_dec(e.stat.request_initiated_count as int) + ", "@ + i64_dec(
        e.stat.request_pending_count as int,
    ) + ", "@ + i64_dec(e.stat.request_sent_count as int) + ", "@ + i64_dec(
        e.stat.response_ok_count as int,
    ) + ", "@ + i64_dec(e.stat.response_bad_count as int) + "\n"@
}

impl ConnectionStatisticsEntry {
    /// The CSV header line naming every column this record renders.
    pub fn write_csv_headers() -> (s: String)
        ensures
            s@ == csv_header_line(),
    {
        String::from_str(
            "time, connection_new_count, connection_living_count, connection_connecting_count, request_initiated_count, request_pending_count, request_sent_count, response_ok_count, response_bad_count\n",
        )
    }

    /// One CSV line for this entry, in header order.
    pub fn write_csv_line(&self) -> (s: String)
        ensures
            s@ == csv_line_of(*self),
    {
        let mut s = u64_to_string(self.time);
        let sep = ", ";
        s.append(sep);
        let p1 = i64_to_string(self.stat.connection_new_count);
        s.append(p1.as_str());
        s.append(sep);
        let p2 = i64_to_string(self.stat.connection_living_count);
        s.append(p2.as_str());
        s.append(sep);
        let p3 = i64_to_string(self.stat.connection_connecting_count);
        s.append(p3.as_str());
        s.append(sep);
        let p4 = i64_to_string(self.stat.request_initiated_count);
        s.append(p4.as_str());
        s.append(sep);
        let p5 = i64_to_string(self.stat.request_pending_count);
        s.append(p5.as_str());
        s.append(sep);
        let p6 = i64_to_string(self.stat.request_sent_count);
        s.append(p6.as_str());
        s.append(sep);
        let p7 = i64_to_string(self.stat.response_ok_count);
        s.append(p7.as_str());
        s.append(sep);
        let p8 = i64_to_string(self.stat.response_bad_count);
        s.append(p8.as_str());
        let end = "\n";
        s.append(end);
        s
    }
}

} // verus!
