//! Date-keyed snapshot file names: the current calendar date written as
//! digits only, year zero-padded to four places, month and day to two, so
//! that one file holds one day's activity snapshot.

use vstd::prelude::*;
use crate::codec::{enc_u64, push_u64, string_of};

verus! {

/// A number padded with leading zeros to at least four places.
pub open spec fn pad4(n: nat) -> Seq<char> {
    if n < 10 {
        seq!['0', '0', '0'] + enc_u64(n)
    } else if n < 100 {
        seq!['0', '0'] + enc_u64(n)
    } else if n < 1000 {
        seq!['0'] + enc_u64(n)
    } else {
        enc_u64(n)
    }
}

/// A number padded with leading zeros to at least two places.
pub open spec fn pad2(n: nat) -> Seq<char> {
    if n < 10 {
        seq!['0'] + enc_u64(n)
    } else {
        enc_u64(n)
    }
}

/// The date token: the padded year magnitude, month and day, digits only.
pub open spec fn spec_date_token(y: nat, m: nat, d: nat) -> Seq<char> {
    pad4(y) + pad2(m) + pad2(d)
}

/// Appends a number padded to at least four places.
fn push_pad4(out: &mut Vec<char>, n: u64)
    ensures
        final(out)@ == old(out)@ + pad4(n as nat),
{
    if n < 1000 {
        out.push('0');
    }
    if n < 100 {
        out.push('0');
    }
    if n < 10 {
        out.push('0');
    }
    let ghost mid = out@;
    push_u64(out, n);
    proof {
        if n < 10 {
            assert(mid =~= old(out)@ + seq!['0', '0', '0']);
            assert(old(out)@ + seq!['0', '0', '0'] + enc_u64(n as nat) =~= old(out)@ + pad4(
                n as nat,
            ));
        } else if n < 100 {
            assert(mid =~= old(out)@ + seq!['0', '0']);
            assert(old(out)@ + seq!['0', '0'] + enc_u64(n as nat) =~= old(out)@ + pad4(n as nat));
        } else if n < 1000 {
            assert(mid =~= old(out)@ + seq!['0']);
            assert(old(out)@ + seq!['0'] + enc_u64(n as nat) =~= old(out)@ + pad4(n as nat));
        }
    }
}

/// Appends a number padded to at least two places.
fn push_pad2(out: &mut Vec<char>, n: u64)
    ensures
        final(out)@ == old(out)@ + pad2(n as nat),
{
    if n < 10 {
        out.push('0');
    }
    let ghost mid = out@;
    push_u64(out, n);
    proof {
        if n < 10 {
            assert(mid =~= old(out)@ + seq!['0']);
            assert(old(out)@ + seq!['0'] + enc_u64(n as nat) =~= old(out)@ + pad2(n as nat));
        }
    }
}

/// Writes the date token for the given calendar date.
pub fn date_token(year_abs: u32, month: u32, day: u32) -> (r: String)
    ensures
        r@ == spec_date_token(year_abs as nat, month as nat, day as nat),
{
    let mut out: Vec<char> = Vec::new();
    push_pad4(&mut out, year_abs as u64);
    push_pad2(&mut out, month as u64);
    push_pad2(&mut out, day as u64);
    proof {
        assert(Seq::<char>::empty() + pad4(year_abs as nat) =~= pad4(year_abs as nat));
    }
    string_of(&out)
}

/// Relies on chrono::Local::now, NaiveDate and Datelike: the current local
/// calendar date. Datelike documents the month in 1 to 12 and the day in
/// 1 to 31, and NaiveDate keeps the year between -262144 and 262143.
#[verifier::external_body]
fn current_date() -> (r: (i32, u32, u32))
    ensures
        -262144 <= r.0 <= 262143,
        1 <= r.1 <= 12,
        1 <= r.2 <= 31,
{
    let today = chrono::Local::now().date_naive();
    (chrono::Datelike::year(&today), chrono::Datelike::month(&today), chrono::Datelike::day(&today))
}

/// The name of today's snapshot file: today's date as digits only. A year
/// before the common era contributes its magnitude, as the sign is no part
/// of a file name.
pub fn generate_file_name() -> (r: String)
    ensures
        exists|y: nat, m: nat, d: nat|
            y <= 262144 && 1 <= m <= 12 && 1 <= d <= 31 && r@ == #[trigger] spec_date_token(
                y,
                m,
                d,
            ),
{
    let (year, month, day) = current_date();
    let year_abs: u32 = if year >= 0 {
        year as u32
    } else {
        (-year) as u32
    };
    let r = date_token(year_abs, month, day);
    proof {
        assert(r@ == spec_date_token(year_abs as nat, month as nat, day as nat));
    }
    r
}

} // verus!
