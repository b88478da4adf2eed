//! Classification of raw message text into a typed command or
//! "not a command", with the argument parsing each command needs.

use vstd::prelude::*;
use vstd::string::*;
use crate::date::{max_days_in_month, spec_days_in_month, days_in_month};

verus! {

/// The closed set of commands a message can carry.
#[derive(Debug)]
pub enum Command {
    Subscribe,
    Unsubscribe,
    CreateEvent { name: String, day: u8, month: u8, year: Option<u16> },
    ChangeTimezone { offset_seconds: i32 },
    Ping,
    DirectMessageTest,
    NotACommand,
}

/// Why a recognised command's arguments were rejected.
#[derive(Clone, Copy, PartialEq, Eq, Structural, Debug)]
pub enum ParseError {
    BadDate,
    MissingName,
    BadOffset,
}

pub open spec fn is_prefix(p: Seq<char>, s: Seq<char>) -> bool {
    p.len() <= s.len() && s.subrange(0, p.len() as int) == p
}

/// Length of the run of characters before the first `sep` (or the whole
/// sequence, if `sep` does not occur).
pub open spec fn seg_len(s: Seq<char>, sep: char) -> nat
    decreases s.len(),
{
    if s.len() == 0 || s[0] == sep {
        0
    } else {
        1 + seg_len(s.skip(1), sep)
    }
}

pub proof fn lemma_seg_len(s: Seq<char>, sep: char)
    ensures
        seg_len(s, sep) <= s.len(),
        forall|j: int| 0 <= j < seg_len(s, sep) ==> s[j] != sep,
        seg_len(s, sep) < s.len() ==> s[seg_len(s, sep) as int] == sep,
    decreases s.len(),
{
    if s.len() != 0 && s[0] != sep {
        lemma_seg_len(s.skip(1), sep);
        assert forall|j: int| 0 <= j < seg_len(s, sep) implies s[j] != sep by {
            if j > 0 {
                assert(s.skip(1)[j - 1] != sep);
            }
        }
    }
}

pub open spec fn is_digit(c: char) -> bool {
    '0' <= c && c <= '9'
}

pub open spec fn digit_val(c: char) -> int {
    c as int - '0' as int
}

pub open spec fn all_digits(s: Seq<char>) -> bool {
    forall|i: int| 0 <= i < s.len() ==> is_digit(#[trigger] s[i])
}

/// A one- or two-digit numeric field.
pub open spec fn short_digits(s: Seq<char>) -> bool {
    (s.len() == 1 || s.len() == 2) && all_digits(s)
}

/// The value of a digit string, most significant digit first.
pub open spec fn dec_val(s: Seq<char>) -> int
    decreases s.len(),
{
    if s.len() == 0 {
        0
    } else {
        dec_val(s.drop_last()) * 10 + digit_val(s.last())
    }
}

/// The parsed day, month and optional year of a `dd/mm` or `dd/mm/yy` field,
/// or `None` where the field does not denote a date some year can hold.
pub open spec fn spec_parse_date(s: Seq<char>) -> Option<(int, int, Option<int>)> {
    let k1 = seg_len(s, '/') as int;
    if k1 == s.len() {
        None
    } else {
        let dpart = s.take(k1);
        let rest = s.skip(k1 + 1);
        let k2 = seg_len(rest, '/') as int;
        let mpart = rest.take(k2);
        if !(short_digits(dpart) && short_digits(mpart)) {
            None
        } else {
            let d = dec_val(dpart);
            let m = dec_val(mpart);
            if k2 == rest.len() {
                if 1 <= m <= 12 && 1 <= d <= max_days_in_month(m) {
                    Some((d, m, None))
                } else {
                    None
                }
            } else {
                let ypart = rest.skip(k2 + 1);
                if ypart.len() == 2 && all_digits(ypart) {
                    let y = 2000 + dec_val(ypart);
                    if 1 <= m <= 12 && 1 <= d <= spec_days_in_month(y, m) {
                        Some((d, m, Some(y)))
                    } else {
                        None
                    }
                } else {
                    None
                }
            }
        }
    }
}

/// The parsed UTC offset, in seconds, of a `+H`, `-H`, `H` or `+H:MM` field,
/// or `None` where the field is malformed or outside -12:00 to +14:00.
pub open spec fn spec_parse_offset(s: Seq<char>) -> Option<int> {
    if s.len() == 0 {
        None
    } else {
        let signed = s[0] == '+' || s[0] == '-';
        let body = if signed {
            s.skip(1)
        } else {
            s
        };
        let k = seg_len(body, ':') as int;
        let hpart = body.take(k);
        if !short_digits(hpart) {
            None
        } else {
            let minutes = if k == body.len() {
                Some(0int)
            } else {
                let mpart = body.skip(k + 1);
                if mpart.len() == 2 && all_digits(mpart) && dec_val(mpart) <= 59 {
                    Some(dec_val(mpart))
                } else {
                    None
                }
            };
            match minutes {
                None => None,
                Some(mm) => {
                    let mag = dec_val(hpart) * 3600 + mm * 60;
                    let total = if s[0] == '-' {
                        -mag
                    } else {
                        mag
                    };
                    if -43200 <= total <= 50400 {
                        Some(total)
                    } else {
                        None
                    }
                },
            }
        }
    }
}

pub open spec fn msg_subscribe(s: Seq<char>) -> bool {
    is_prefix("!alertMe "@, s)
}

pub open spec fn msg_unsubscribe(s: Seq<char>) -> bool {
    is_prefix("!removeMe "@, s)
}

pub open spec fn msg_new_event(s: Seq<char>) -> bool {
    is_prefix("!newEvent "@, s)
}

pub open spec fn msg_change_timezone(s: Seq<char>) -> bool {
    is_prefix("!changeTimezone "@, s)
}

pub open spec fn msg_ping(s: Seq<char>) -> bool {
    s == "!ping"@
}

pub open spec fn msg_direct_message(s: Seq<char>) -> bool {
    s == "!messageme"@
}

pub open spec fn is_command_msg(s: Seq<char>) -> bool {
    msg_subscribe(s) || msg_unsubscribe(s) || msg_new_event(s) || msg_change_timezone(s)
        || msg_ping(s) || msg_direct_message(s)
}

/// What parsing owes for a `!newEvent` message: the name is the first
/// space-delimited token after the prefix, the date the text after the
/// space that follows it.
pub open spec fn new_event_post(s: Seq<char>, r: Result<Command, ParseError>) -> bool {
    let tail = s.skip("!newEvent "@.len() as int);
    let nlen = seg_len(tail, ' ') as int;
    if nlen == 0 {
        r == Result::<Command, ParseError>::Err(ParseError::MissingName)
    } else if nlen == tail.len() {
        r == Result::<Command, ParseError>::Err(ParseError::BadDate)
    } else {
        match spec_parse_date(tail.skip(nlen + 1)) {
            None => r == Result::<Command, ParseError>::Err(ParseError::BadDate),
            Some((d, m, y)) => r matches Ok(
                Command::CreateEvent { name, day, month, year },
            ) && name@ == tail.take(nlen) && day as int == d && month as int == m && (match (year, y) {
                (None, None) => crate::date::partial_date_ok(day as int, month as int),
                (Some(a), Some(b)) => a as int == b && crate::date::valid_date(
                    a as int,
                    month as int,
                    day as int,
                ),
                _ => false,
            }),
        }
    }
}

/// What parsing owes for a `!changeTimezone` message.
pub open spec fn change_timezone_post(s: Seq<char>, r: Result<Command, ParseError>) -> bool {
    let tail = s.skip("!changeTimezone "@.len() as int);
    match spec_parse_offset(tail) {
        None => r == Result::<Command, ParseError>::Err(ParseError::BadOffset),
        Some(o) => r matches Ok(Command::ChangeTimezone { offset_seconds }) && offset_seconds as int
            == o,
    }
}

/// The six message forms are told apart by their second character, so no
/// message carries two of them at once.
proof fn lemma_msg_second_char(s: Seq<char>)
    ensures
        msg_subscribe(s) ==> s[1] == 'a',
        msg_unsubscribe(s) ==> s[1] == 'r',
        msg_new_event(s) ==> s[1] == 'n',
        msg_change_timezone(s) ==> s[1] == 'c',
        msg_ping(s) ==> s[1] == 'p',
        msg_direct_message(s) ==> s[1] == 'm',
{
    reveal_strlit("!alertMe ");
    reveal_strlit("!removeMe ");
    reveal_strlit("!newEvent ");
    reveal_strlit("!changeTimezone ");
    reveal_strlit("!ping");
    reveal_strlit("!messageme");
    if msg_subscribe(s) {
        assert(s.subrange(0, "!alertMe "@.len() as int)[1] == s[1]);
    }
    if msg_unsubscribe(s) {
        assert(s.subrange(0, "!removeMe "@.len() as int)[1] == s[1]);
    }
    if msg_new_event(s) {
        assert(s.subrange(0, "!newEvent "@.len() as int)[1] == s[1]);
    }
    if msg_change_timezone(s) {
        assert(s.subrange(0, "!changeTimezone "@.len() as int)[1] == s[1]);
    }
}

fn starts_with_lit(s: &str, p: &str) -> (b: bool)
    ensures
        b == is_prefix(p@, s@),
{
    let plen = p.unicode_len();
    let slen = s.unicode_len();
    if plen > slen {
        return false;
    }
    let mut i: usize = 0;
    while i < plen
        invariant
            0 <= i <= plen,
            plen == p@.len(),
            plen <= s@.len(),
            forall|j: int| 0 <= j < i ==> s@[j] == p@[j],
        decreases plen - i,
    {
        if s.get_char(i) != p.get_char(i) {
            proof {
                assert(s@.subrange(0, p@.len() as int)[i as int] != p@[i as int]);
            }
            return false;
        }
        i = i + 1;
    }
    proof {
        assert(s@.subrange(0, p@.len() as int) =~= p@);
    }
    true
}

fn str_equals(s: &str, p: &str) -> (b: bool)
    ensures
        b == (s@ == p@),
{
    if s.unicode_len() != p.unicode_len() {
        return false;
    }
    let b = starts_with_lit(s, p);
    proof {
        if b {
            assert(s@.subrange(0, p@.len() as int) =~= s@);
        } else if s@ == p@ {
            assert(s@.subrange(0, p@.len() as int) =~= p@);
        }
    }
    b
}

/// The index of the first `sep` at or after `from`, or the length of `s`.
fn find_sep(s: &str, from: usize, sep: char) -> (r: usize)
    requires
        from <= s@.len(),
    ensures
        from + seg_len(s@.skip(from as int), sep) == r,
        r <= s@.len(),
{
    let len = s.unicode_len();
    let mut i = from;
    while i < len && s.get_char(i) != sep
        invariant
            from <= i <= len,
            len == s@.len(),
            forall|j: int| from <= j < i ==> s@[j] != sep,
        decreases len - i,
    {
        i = i + 1;
    }
    proof {
        let t = s@.skip(from as int);
        lemma_seg_len(t, sep);
        let g = seg_len(t, sep) as int;
        assert(forall|j: int| 0 <= j < t.len() ==> t[j] == s@[from + j]);
        if i - from < g {
            assert(t[i - from] != sep);
            assert(i < len);
            assert(s@[i as int] == t[i - from]);
            assert(false);
        }
        if i - from > g {
            assert(t[g] == sep);
            assert(s@[from + g] != sep);
            assert(false);
        }
    }
    i
}

/// The value of the digit field `s[from..to]`, if it is one or two digits.
fn small_number(s: &str, from: usize, to: usize) -> (r: Option<u8>)
    requires
        from <= to <= s@.len(),
    ensures
        r matches Some(v) ==> short_digits(s@.subrange(from as int, to as int)) && v as int
            == dec_val(s@.subrange(from as int, to as int)) && v < 100,
        r is None ==> !short_digits(s@.subrange(from as int, to as int)),
{
    let ghost field = s@.subrange(from as int, to as int);
    if to - from != 1 && to - from != 2 {
        return None;
    }
    let c0 = s.get_char(from);
    if !('0' <= c0 && c0 <= '9') {
        proof {
            assert(field[0] == c0 && !is_digit(c0));
        }
        return None;
    }
    let v0 = (c0 as u32 - '0' as u32) as u8;
    if to - from == 1 {
        proof {
            assert(field.drop_last() =~= Seq::<char>::empty());
            assert(dec_val(field.drop_last()) == 0);
            assert(field.last() == c0);
            assert(forall|i: int| 0 <= i < field.len() ==> is_digit(#[trigger] field[i]));
        }
        Some(v0)
    } else {
        let c1 = s.get_char(from + 1);
        if !('0' <= c1 && c1 <= '9') {
            proof {
                assert(field[1] == c1 && !is_digit(c1));
            }
            return None;
        }
        let v1 = (c1 as u32 - '0' as u32) as u8;
        proof {
            assert(field.drop_last().drop_last() =~= Seq::<char>::empty());
            assert(dec_val(field.drop_last().drop_last()) == 0);
            assert(field.drop_last().last() == c0);
            assert(dec_val(field.drop_last()) == digit_val(c0));
            assert(field.last() == c1);
            assert(forall|i: int| 0 <= i < field.len() ==> is_digit(#[trigger] field[i]));
        }
        Some(v0 * 10 + v1)
    }
}

/// The day, month and optional year of a `dd/mm` or `dd/mm/yy` field.
pub fn parse_date(s: &str) -> (r: Option<(u8, u8, Option<u16>)>)
    ensures
        r matches Some((d, m, y)) ==> spec_parse_date(s@) == Some(
            (
                d as int,
                m as int,
                match y {
                    Some(yy) => Some(yy as int),
                    None => None,
                },
            ),
        ) && (match y {
            Some(yy) => crate::date::valid_date(yy as int, m as int, d as int),
            None => crate::date::partial_date_ok(d as int, m as int),
        }),
        r is None ==> spec_parse_date(s@) is None,
{
    let len = s.unicode_len();
    let k1 = find_sep(s, 0, '/');
    proof {
        assert(s@.skip(0) =~= s@);
    }
    if k1 == len {
        return None;
    }
    let ghost rest = s@.skip(k1 + 1);
    let d = small_number(s, 0, k1);
    proof {
        assert(s@.subrange(0, k1 as int) =~= s@.take(k1 as int));
    }
    let k2 = find_sep(s, k1 + 1, '/');
    proof {
        assert(seg_len(rest, '/') == k2 - (k1 + 1));
        assert(s@.subrange(k1 + 1 as int, k2 as int) =~= rest.take(k2 - (k1 + 1)));
    }
    let m = small_number(s, k1 + 1, k2);
    let (d, m) = match (d, m) {
        (Some(d), Some(m)) => (d, m),
        _ => {
            return None;
        },
    };
    if k2 == len {
        // dd/mm: valid if some year holds the date
        if 1 <= m && m <= 12 && 1 <= d && d <= max_days_exec(m) {
            proof {
                assert(k2 - (k1 + 1) == rest.len());
            }
            Some((d, m, None))
        } else {
            None
        }
    } else {
        // dd/mm/yy
        let ghost ypart = rest.skip(k2 - (k1 + 1) + 1);
        proof {
            assert(ypart =~= s@.skip(k2 + 1));
        }
        if !(len - (k2 + 1) == 2) {
            return None;
        }
        let c0 = s.get_char(k2 + 1);
        let c1 = s.get_char(k2 + 2);
        if !('0' <= c0 && c0 <= '9' && '0' <= c1 && c1 <= '9') {
            proof {
                assert(ypart[0] == c0 && ypart[1] == c1);
            }
            return None;
        }
        let yv = ((c0 as u32 - '0' as u32) * 10 + (c1 as u32 - '0' as u32)) as u16;
        let y: u16 = 2000 + yv;
        proof {
            assert(forall|i: int| 0 <= i < ypart.len() ==> is_digit(#[trigger] ypart[i]));
            assert(ypart.drop_last().drop_last() =~= Seq::<char>::empty());
            assert(dec_val(ypart.drop_last().drop_last()) == 0);
            assert(ypart.drop_last().last() == c0);
            assert(dec_val(ypart.drop_last()) == digit_val(c0));
            assert(ypart.last() == c1);
            assert(dec_val(ypart) == digit_val(c0) * 10 + digit_val(c1));
        }
        if 1 <= m && m <= 12 && 1 <= d && d <= days_in_month(y, m) {
            Some((d, m, Some(y)))
        } else {
            None
        }
    }
}

fn max_days_exec(m: u8) -> (r: u8)
    requires
        1 <= m <= 12,
    ensures
        r as int == max_days_in_month(m as int),
{
    if m == 2 {
        29
    } else if m == 4 || m == 6 || m == 9 || m == 11 {
        30
    } else {
        31
    }
}

/// The UTC offset, in seconds, of a `+H`, `-H`, `H` or `+H:MM` field.
pub fn parse_offset(s: &str) -> (r: Option<i32>)
    ensures
        r matches Some(o) ==> spec_parse_offset(s@) == Some(o as int),
        r is None ==> spec_parse_offset(s@) is None,
{
    let len = s.unicode_len();
    if len == 0 {
        return None;
    }
    let c0 = s.get_char(0);
    let signed = c0 == '+' || c0 == '-';
    let start: usize = if signed {
        1
    } else {
        0
    };
    let ghost body = if signed {
        s@.skip(1)
    } else {
        s@
    };
    proof {
        assert(s@.skip(0) =~= s@);
        assert(forall|j: int| 0 <= j < body.len() ==> body[j] == s@[j + start]);
    }
    let k = find_sep(s, start, ':');
    proof {
        assert(seg_len(body, ':') == k - start);
        assert(s@.subrange(start as int, k as int) =~= body.take(k - start));
    }
    let h = match small_number(s, start, k) {
        Some(h) => h,
        None => {
            return None;
        },
    };
    let mins: u8 = if k == len {
        proof {
            assert(k - start == body.len());
        }
        0
    } else {
        let ghost mpart = body.skip(k - start + 1);
        proof {
            assert(mpart =~= s@.skip(k + 1));
        }
        if !(len - (k + 1) == 2) {
            return None;
        }
        let c1 = s.get_char(k + 1);
        let c2 = s.get_char(k + 2);
        if !('0' <= c1 && c1 <= '9' && '0' <= c2 && c2 <= '9') {
            proof {
                assert(mpart[0] == c1 && mpart[1] == c2);
            }
            return None;
        }
        let mv = ((c1 as u32 - '0' as u32) * 10 + (c2 as u32 - '0' as u32)) as u8;
        proof {
            assert(forall|i: int| 0 <= i < mpart.len() ==> is_digit(#[trigger] mpart[i]));
            assert(mpart.drop_last().drop_last() =~= Seq::<char>::empty());
            assert(dec_val(mpart.drop_last().drop_last()) == 0);
            assert(mpart.drop_last().last() == c1);
            assert(dec_val(mpart.drop_last()) == digit_val(c1));
            assert(mpart.last() == c2);
            assert(dec_val(mpart) == digit_val(c1) * 10 + digit_val(c2));
        }
        if mv > 59 {
            return None;
        }
        mv
    };
    let mag: i32 = h as i32 * 3600 + mins as i32 * 60;
    let total: i32 = if c0 == '-' {
        -mag
    } else {
        mag
    };
    if -43200 <= total && total <= 50400 {
        Some(total)
    } else {
        None
    }
}

/// Classify a raw message. Text that carries no command prefix is
/// `Ok(NotACommand)`; a recognised command with malformed arguments is an
/// error naming what was wrong.
pub fn parse_message(text: &str) -> (r: Result<Command, ParseError>)
    ensures
        msg_subscribe(text@) ==> r == Result::<Command, ParseError>::Ok(Command::Subscribe),
        msg_unsubscribe(text@) ==> r == Result::<Command, ParseError>::Ok(Command::Unsubscribe),
        msg_ping(text@) ==> r == Result::<Command, ParseError>::Ok(Command::Ping),
        msg_direct_message(text@) ==> r == Result::<Command, ParseError>::Ok(
            Command::DirectMessageTest,
        ),
        msg_new_event(text@) ==> new_event_post(text@, r),
        msg_change_timezone(text@) ==> change_timezone_post(text@, r),
        !is_command_msg(text@) ==> r == Result::<Command, ParseError>::Ok(Command::NotACommand),
{
    proof {
        reveal_strlit("!alertMe ");
        reveal_strlit("!removeMe ");
        reveal_strlit("!newEvent ");
        reveal_strlit("!changeTimezone ");
        reveal_strlit("!ping");
        reveal_strlit("!messageme");
        lemma_msg_second_char(text@);
    }
    let len = text.unicode_len();
    if starts_with_lit(text, "!changeTimezone ") {
        let tail = text.substring_char(16, len);
        proof {
            assert(tail@ =~= text@.skip("!changeTimezone "@.len() as int));
        }
        match parse_offset(tail) {
            Some(o) => Ok(Command::ChangeTimezone { offset_seconds: o }),
            None => Err(ParseError::BadOffset),
        }
    } else if starts_with_lit(text, "!alertMe ") {
        Ok(Command::Subscribe)
    } else if starts_with_lit(text, "!removeMe ") {
        Ok(Command::Unsubscribe)
    } else if starts_with_lit(text, "!newEvent ") {
        let tail = text.substring_char(10, len);
        proof {
            assert(tail@ =~= text@.skip("!newEvent "@.len() as int));
        }
        let tail_len = tail.unicode_len();
        let nlen = find_sep(tail, 0, ' ');
        proof {
            assert(tail@.skip(0) =~= tail@);
        }
        if nlen == 0 {
            Err(ParseError::MissingName)
        } else if nlen == tail_len {
            Err(ParseError::BadDate)
        } else {
            let name = tail.substring_char(0, nlen).to_owned();
            let date_part = tail.substring_char(nlen + 1, tail_len);
            proof {
                assert(name@ =~= tail@.take(nlen as int));
                assert(date_part@ =~= tail@.skip(nlen + 1));
            }
            match parse_date(date_part) {
                Some((d, m, y)) => Ok(Command::CreateEvent { name, day: d, month: m, year: y }),
                None => Err(ParseError::BadDate),
            }
        }
    } else if str_equals(text, "!ping") {
        Ok(Command::Ping)
    } else if str_equals(text, "!messageme") {
        Ok(Command::DirectMessageTest)
    } else {
        Ok(Command::NotACommand)
    }
}

} // verus!
