//! Rendering of replies: decimal numbers, dates, times, offsets, and the
//! texts the bot answers with.

use vstd::prelude::*;
use vstd::string::*;
use crate::date::{Date, date_valid};

verus! {

pub open spec fn digit_char(n: int) -> char {
    if n == 0 {
        '0'
    } else if n == 1 {
        '1'
    } else if n == 2 {
        '2'
    } else if n == 3 {
        '3'
    } else if n == 4 {
        '4'
    } else if n == 5 {
        '5'
    } else if n == 6 {
        '6'
    } else if n == 7 {
        '7'
    } else if n == 8 {
        '8'
    } else {
        '9'
    }
}

/// The decimal digits of `n`, most significant first, no leading zeros.
pub open spec fn dec_str(n: nat) -> Seq<char>
    decreases n,
{
    if n < 10 {
        seq![digit_char(n as int)]
    } else {
        dec_str(n / 10) + seq![digit_char((n % 10) as int)]
    }
}

/// `n` rendered in exactly two digits, zero-padded; meaningful for n < 100.
pub open spec fn two_digit_str(n: nat) -> Seq<char> {
    seq![digit_char((n / 10) as int), digit_char((n % 10) as int)]
}

fn digit_str(d: u8) -> (r: &'static str)
    requires
        d < 10,
    ensures
        r@ == seq![digit_char(d as int)],
{
    proof {
        reveal_strlit("0");
        reveal_strlit("1");
        reveal_strlit("2");
        reveal_strlit("3");
        reveal_strlit("4");
        reveal_strlit("5");
        reveal_strlit("6");
        reveal_strlit("7");
        reveal_strlit("8");
        reveal_strlit("9");
    }
    let r = match d {
        0 => "0",
        1 => "1",
        2 => "2",
        3 => "3",
        4 => "4",
        5 => "5",
        6 => "6",
        7 => "7",
        8 => "8",
        _ => "9",
    };
    proof {
        assert(r@ =~= seq![digit_char(d as int)]);
    }
    r
}

/// `n` in decimal, most significant digit first.
pub fn u64_to_string(n: u64) -> (r: String)
    ensures
        r@ == dec_str(n as nat),
    decreases n,
{
    if n < 10 {
        digit_str(n as u8).to_owned()
    } else {
        let mut s = u64_to_string(n / 10);
        s.append(digit_str((n % 10) as u8));
        s
    }
}

/// `n` in exactly two digits, zero-padded.
pub fn two_digit_string(n: u64) -> (r: String)
    requires
        n < 100,
    ensures
        r@ == two_digit_str(n as nat),
{
    let mut s = digit_str((n / 10) as u8).to_owned();
    s.append(digit_str((n % 10) as u8));
    proof {
        assert(s@ =~= two_digit_str(n as nat));
    }
    s
}

/// A date as `YYYY-MM-DD`.
pub open spec fn date_str(d: Date) -> Seq<char> {
    dec_str(d.year as nat) + "-"@ + two_digit_str(d.month as nat) + "-"@ + two_digit_str(
        d.day as nat,
    )
}

pub fn date_string(d: Date) -> (r: String)
    requires
        date_valid(d),
    ensures
        r@ == date_str(d),
{
    let mut s = u64_to_string(d.year as u64);
    s.append("-");
    let m = two_digit_string(d.month as u64);
    s.append(m.as_str());
    s.append("-");
    let dd = two_digit_string(d.day as u64);
    s.append(dd.as_str());
    proof {
        assert(s@ =~= date_str(d));
    }
    s
}

/// A time of day as `HH:MM:SS`, from the seconds since midnight.
pub open spec fn time_str(sod: int) -> Seq<char> {
    two_digit_str((sod / 3600) as nat) + ":"@ + two_digit_str((sod % 3600 / 60) as nat) + ":"@
        + two_digit_str((sod % 60) as nat)
}

pub fn time_string(sod: u64) -> (r: String)
    requires
        sod < 86400,
    ensures
        r@ == time_str(sod as int),
{
    let mut s = two_digit_string(sod / 3600);
    s.append(":");
    let m = two_digit_string(sod % 3600 / 60);
    s.append(m.as_str());
    s.append(":");
    let sec = two_digit_string(sod % 60);
    s.append(sec.as_str());
    proof {
        assert(s@ =~= time_str(sod as int));
    }
    s
}

/// A UTC offset as `UTC+HH:MM` or `UTC-HH:MM`.
pub open spec fn offset_str(o: int) -> Seq<char> {
    let mag = if o < 0 {
        -o
    } else {
        o
    };
    (if o < 0 {
        "UTC-"@
    } else {
        "UTC+"@
    }) + two_digit_str((mag / 3600) as nat) + ":"@ + two_digit_str((mag % 3600 / 60) as nat)
}

pub fn offset_string(offset_seconds: i32) -> (r: String)
    requires
        crate::clock::valid_offset(offset_seconds as int),
    ensures
        r@ == offset_str(offset_seconds as int),
{
    let mag: u64 = if offset_seconds < 0 {
        (-(offset_seconds as i64)) as u64
    } else {
        offset_seconds as u64
    };
    let mut s = if offset_seconds < 0 {
        "UTC-".to_owned()
    } else {
        "UTC+".to_owned()
    };
    let h = two_digit_string(mag / 3600);
    s.append(h.as_str());
    s.append(":");
    let m = two_digit_string(mag % 3600 / 60);
    s.append(m.as_str());
    proof {
        assert(s@ =~= offset_str(offset_seconds as int));
    }
    s
}

/// A user mention, as chat platforms address a user in running text.
pub open spec fn mention_str(user_id: u64) -> Seq<char> {
    "<@"@ + dec_str(user_id as nat) + ">"@
}

pub fn mention_string(user_id: u64) -> (r: String)
    ensures
        r@ == mention_str(user_id),
{
    let mut s = "<@".to_owned();
    let n = u64_to_string(user_id);
    s.append(n.as_str());
    s.append(">");
    proof {
        assert(s@ =~= mention_str(user_id));
    }
    s
}

pub open spec fn subscribe_reply(user_id: u64) -> Seq<char> {
    "I will alert "@ + mention_str(user_id) + " when it is time for an event."@
}

pub fn subscribe_reply_string(user_id: u64) -> (r: String)
    ensures
        r@ == subscribe_reply(user_id),
{
    let mut s = "I will alert ".to_owned();
    let m = mention_string(user_id);
    s.append(m.as_str());
    s.append(" when it is time for an event.");
    proof {
        assert(s@ =~= subscribe_reply(user_id));
    }
    s
}

pub open spec fn unsubscribe_reply(user_id: u64) -> Seq<char> {
    "I will no longer alert "@ + mention_str(user_id) + " when it is time for an event."@
}

pub fn unsubscribe_reply_string(user_id: u64) -> (r: String)
    ensures
        r@ == unsubscribe_reply(user_id),
{
    let mut s = "I will no longer alert ".to_owned();
    let m = mention_string(user_id);
    s.append(m.as_str());
    s.append(" when it is time for an event.");
    proof {
        assert(s@ =~= unsubscribe_reply(user_id));
    }
    s
}

pub open spec fn new_event_reply(user_id: u64, name: Seq<char>, d: Date) -> Seq<char> {
    "User "@ + mention_str(user_id) + " has added the new event: "@ + name + " for "@ + date_str(d)
}

pub fn new_event_reply_string(user_id: u64, name: &str, d: Date) -> (r: String)
    requires
        date_valid(d),
    ensures
        r@ == new_event_reply(user_id, name@, d),
{
    let mut s = "User ".to_owned();
    let m = mention_string(user_id);
    s.append(m.as_str());
    s.append(" has added the new event: ");
    s.append(name);
    s.append(" for ");
    let ds = date_string(d);
    s.append(ds.as_str());
    proof {
        assert(s@ =~= new_event_reply(user_id, name@, d));
    }
    s
}

pub open spec fn timezone_reply(o: int) -> Seq<char> {
    "Your timezone is now set to "@ + offset_str(o)
}

pub fn timezone_reply_string(offset_seconds: i32) -> (r: String)
    requires
        crate::clock::valid_offset(offset_seconds as int),
    ensures
        r@ == timezone_reply(offset_seconds as int),
{
    let mut s = "Your timezone is now set to ".to_owned();
    let o = offset_string(offset_seconds);
    s.append(o.as_str());
    proof {
        assert(s@ =~= timezone_reply(offset_seconds as int));
    }
    s
}

pub open spec fn ping_reply(sod: int, d: Date) -> Seq<char> {
    "It is currently "@ + time_str(sod) + " | "@ + date_str(d)
}

pub fn ping_reply_string(sod: u64, d: Date) -> (r: String)
    requires
        sod < 86400,
        date_valid(d),
    ensures
        r@ == ping_reply(sod as int, d),
{
    let mut s = "It is currently ".to_owned();
    let t = time_string(sod);
    s.append(t.as_str());
    s.append(" | ");
    let ds = date_string(d);
    s.append(ds.as_str());
    proof {
        assert(s@ =~= ping_reply(sod as int, d));
    }
    s
}

pub open spec fn bad_date_reply() -> Seq<char> {
    "Event dates must look like dd/mm or dd/mm/yy."@
}

pub fn bad_date_reply_string() -> (r: String)
    ensures
        r@ == bad_date_reply(),
{
    "Event dates must look like dd/mm or dd/mm/yy.".to_owned()
}

pub open spec fn missing_name_reply() -> Seq<char> {
    "Events need a name: !newEvent <name> <date>."@
}

pub fn missing_name_reply_string() -> (r: String)
    ensures
        r@ == missing_name_reply(),
{
    "Events need a name: !newEvent <name> <date>.".to_owned()
}

pub open spec fn bad_offset_reply() -> Seq<char> {
    "Offsets must look like +H, -H or +H:MM, between -12 and +14."@
}

pub fn bad_offset_reply_string() -> (r: String)
    ensures
        r@ == bad_offset_reply(),
{
    "Offsets must look like +H, -H or +H:MM, between -12 and +14.".to_owned()
}

pub open spec fn reminder_reply(name: Seq<char>) -> Seq<char> {
    "It is time for the event: "@ + name
}

pub fn reminder_reply_string(name: &str) -> (r: String)
    ensures
        r@ == reminder_reply(name@),
{
    let mut s = "It is time for the event: ".to_owned();
    s.append(name);
    proof {
        assert(s@ =~= reminder_reply(name@));
    }
    s
}

pub open spec fn dm_text() -> Seq<char> {
    "Hello!"@
}

pub fn dm_text_string() -> (r: String)
    ensures
        r@ == dm_text(),
{
    "Hello!".to_owned()
}

} // verus!
