//! Configuration of the tracker and the naming of the per-year data
//! files.

use vstd::prelude::*;

use crate::codec::digit_char;
use crate::codec::digit_str;

verus! {

/// Credentials for the external status source.
pub struct Divera {
    pub access_key: String,
}

/// The tracker's configuration.
pub struct Config {
    pub divera: Divera,
}

impl Config {
    /// A configuration holding the given access key.
    pub fn new(access_key: &str) -> (r: Config)
        ensures
            r.divera.access_key@ == access_key@,
    {
        Config { divera: Divera { access_key: access_key.to_owned() } }
    }
}

/// The plain decimal digits of a value, without leading zeros.
pub open spec fn dec_chars(n: nat) -> Seq<char>
    decreases n,
{
    if n < 10 {
        seq![digit_char(n)]
    } else {
        dec_chars(n / 10).push(digit_char(n % 10))
    }
}

/// A value written in plain decimal.
fn dec_string(n: u32) -> (r: String)
    ensures
        r@ == dec_chars(n as nat),
    decreases n,
{
    if n < 10 {
        let r = digit_str(n as u64).to_owned();
        proof {
            assert(r@ =~= dec_chars(n as nat));
        }
        r
    } else {
        let mut s = dec_string(n / 10);
        s.append(digit_str((n % 10) as u64));
        proof {
            assert(s@ =~= dec_chars(n as nat));
        }
        s
    }
}

/// The file name under which one calendar year's accumulated table is
/// persisted: the year in decimal followed by `-status.txt`.
pub fn get_data_path(year: i32) -> (r: String)
    requires
        0 <= year,
    ensures
        r@ == dec_chars(year as nat) + "-status.txt"@,
{
    let mut s = dec_string(year as u32);
    s.append("-status.txt");
    s
}

} // verus!
