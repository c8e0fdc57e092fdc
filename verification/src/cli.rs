//! The command layer: free-text lines become commands for the manager.
//! A line is trimmed of surrounding whitespace and split at its first
//! space; the first word picks the command, the rest is its argument.

use vstd::prelude::*;

use crate::json;
use crate::models::Command;

verus! {

// ---------------------------------------------------------------------------
// What a line of input means.
// ---------------------------------------------------------------------------

/// The input with leading whitespace removed.
pub open spec fn trim_front(s: Seq<char>) -> Seq<char>
    decreases s.len(),
{
    if s.len() > 0 && json::is_ws(s[0]) {
        trim_front(s.skip(1))
    } else {
        s
    }
}

/// The input with trailing whitespace removed.
pub open spec fn trim_back(s: Seq<char>) -> Seq<char>
    decreases s.len(),
{
    if s.len() > 0 && json::is_ws(s.last()) {
        trim_back(s.drop_last())
    } else {
        s
    }
}

/// The input with whitespace removed from both ends.
pub open spec fn trimmed(s: Seq<char>) -> Seq<char> {
    trim_back(trim_front(s))
}

/// The command word: everything before the first space.
pub open spec fn head_of(t: Seq<char>) -> Seq<char>
    decreases t.len(),
{
    if t.len() == 0 || t[0] == ' ' {
        Seq::empty()
    } else {
        seq![t[0]] + head_of(t.skip(1))
    }
}

/// The argument: everything after the first space, or nothing when the
/// line has no space.
pub open spec fn tail_of(t: Seq<char>) -> Option<Seq<char>>
    decreases t.len(),
{
    if t.len() == 0 {
        None
    } else if t[0] == ' ' {
        Some(t.skip(1))
    } else {
        tail_of(t.skip(1))
    }
}

/// The value of a digit string, most significant digit first.
pub open spec fn dec_val(s: Seq<char>) -> int
    decreases s.len(),
{
    if s.len() == 0 {
        0
    } else {
        dec_val(s.drop_last()) * 10 + (s.last() as int - 48)
    }
}

/// Every character is a decimal digit.
pub open spec fn all_digits(s: Seq<char>) -> bool {
    forall|i: int| 0 <= i < s.len() ==> json::is_digit(#[trigger] s[i])
}

/// An id argument may carry one leading plus sign; this is the part the
/// digits must fill.
pub open spec fn id_text(s: Seq<char>) -> Seq<char> {
    if s.len() > 0 && s[0] == '+' {
        s.skip(1)
    } else {
        s
    }
}

/// What an id argument must look like: at least one digit after the
/// optional sign, digits only, and a value that fits the id type.
pub open spec fn id_ok(s: Seq<char>) -> bool {
    &&& id_text(s).len() > 0
    &&& all_digits(id_text(s))
    &&& dec_val(id_text(s)) <= usize::MAX as int
}

// ---------------------------------------------------------------------------
// Digit-string facts.
// ---------------------------------------------------------------------------

/// A digit string's value is non-negative.
proof fn lemma_dec_val_nonneg(s: Seq<char>)
    requires
        all_digits(s),
    ensures
        dec_val(s) >= 0,
    decreases s.len(),
{
    if s.len() > 0 {
        assert(all_digits(s.drop_last()));
        lemma_dec_val_nonneg(s.drop_last());
        assert(s.last() as int - 48 >= 0);
        assert(dec_val(s.drop_last()) * 10 >= 0);
    }
}

/// Extending a digit string never shrinks its value.
proof fn lemma_dec_val_prefix(s: Seq<char>, k: int)
    requires
        all_digits(s),
        0 <= k <= s.len(),
    ensures
        dec_val(s) >= dec_val(s.take(k)),
    decreases s.len() - k,
{
    if k == s.len() {
        assert(s.take(k) =~= s);
    } else {
        assert(all_digits(s.drop_last()));
        lemma_dec_val_nonneg(s.drop_last());
        assert(dec_val(s.drop_last()) * 10 >= dec_val(s.drop_last()));
        assert(s.last() as int - 48 >= 0);
        assert(s.drop_last().take(k) =~= s.take(k));
        lemma_dec_val_prefix(s.drop_last(), k);
    }
}

/// Where the first space sits determines the command word and argument.
proof fn lemma_head_tail(t: Seq<char>, j: int)
    requires
        0 <= j <= t.len(),
        forall|k: int| 0 <= k < j ==> #[trigger] t[k] != ' ',
        j < t.len() ==> t[j] == ' ',
    ensures
        head_of(t) == t.take(j),
        tail_of(t) == (if j < t.len() {
            Some(t.skip(j + 1))
        } else {
            None::<Seq<char>>
        }),
    decreases j,
{
    if j == 0 {
        assert(head_of(t) =~= t.take(0));
    } else {
        assert(t[0] != ' ');
        assert(forall|k: int| 0 <= k < j - 1 ==> #[trigger] t.skip(1)[k] != ' ');
        lemma_head_tail(t.skip(1), j - 1);
        assert(head_of(t) =~= t.take(j));
        if j < t.len() {
            assert(t.skip(1).skip(j) =~= t.skip(j + 1));
        }
    }
}

// ---------------------------------------------------------------------------
// Executable parsing of ids and commands.
// ---------------------------------------------------------------------------

/// Reads an id value from a digit string with an optional leading plus
/// sign; anything else, including a value too large for the id type, is
/// rejected.
fn read_id(s: &str) -> (r: Result<usize, &'static str>)
    ensures
        id_ok(s@) ==> (r matches Ok(n) && n as int == dec_val(id_text(s@))),
        !id_ok(s@) ==> (r matches Err(e) && e@ == "id must be a number"@),
{
    let v = json::str_chars(s);
    let n = v.len();
    let start: usize = if n > 0 && v[0] == '+' {
        1
    } else {
        0
    };
    let ghost d = id_text(s@);
    proof {
        assert(d =~= v@.subrange(start as int, n as int));
    }
    if n == start {
        return Err("id must be a number");
    }
    let mut acc: usize = 0;
    let mut i = start;
    while i < n
        invariant
            start <= i <= n,
            n == v@.len(),
            v@ == s@,
            d == id_text(s@),
            d =~= v@.subrange(start as int, n as int),
            all_digits(d.take(i - start)),
            acc as int == dec_val(d.take(i - start)),
        decreases n - i,
    {
        let c = v[i];
        proof {
            assert(d[i - start] == v@[i as int]);
        }
        if !is_digit_ch(c) {
            // A non-digit anywhere makes the argument invalid.
            proof {
                assert(!json::is_digit(d[i - start]));
            }
            return Err("id must be a number");
        }
        let dg = digit_value(c) as usize;
        let stepped = match acc.checked_mul(10) {
            Some(m) => m.checked_add(dg),
            None => None,
        };
        proof {
            assert(d.take(i - start + 1).drop_last() =~= d.take(i - start));
            assert(d.take(i - start + 1).last() == d[i - start]);
            assert(all_digits(d.take(i - start + 1)));
        }
        match stepped {
            Some(y) => {
                acc = y;
                i = i + 1;
            },
            None => {
                // The digits read so far already exceed the id type, so the
                // whole argument does too.
                proof {
                    assert(dec_val(d.take(i - start + 1)) > usize::MAX as int);
                    if id_ok(s@) {
                        lemma_dec_val_prefix(d, i - start + 1);
                        assert(dec_val(d.take(i - start + 1)) > dec_val(d));
                        assert(false);
                    }
                }
                return Err("id must be a number");
            },
        }
    }
    proof {
        assert(d.take(n - start) =~= d);
    }
    Ok(acc)
}

/// Reads the id argument of a command: absent or malformed arguments are
/// rejected with a message saying which.
pub fn parse_id(arg: Option<&str>) -> (r: Result<usize, &'static str>)
    ensures
        match arg {
            None => r matches Err(e) && e@ == "id is required"@,
            Some(s) => if id_ok(s@) {
                r matches Ok(n) && n as int == dec_val(id_text(s@))
            } else {
                r matches Err(e) && e@ == "id must be a number"@
            },
        },
{
    match arg {
        Some(s) => read_id(s),
        None => Err("id is required"),
    }
}

/// Whether the characters from `lo` to `hi` spell exactly the given word.
fn range_is(v: &Vec<char>, lo: usize, hi: usize, w: &str) -> (b: bool)
    requires
        lo <= hi <= v@.len(),
    ensures
        b == (v@.subrange(lo as int, hi as int) == w@),
{
    let wn = w.unicode_len();
    if hi - lo != wn {
        return false;
    }
    let mut i: usize = 0;
    while i < wn
        invariant
            i <= wn,
            wn == w@.len(),
            lo + wn == hi,
            hi <= v@.len(),
            forall|k: int| 0 <= k < i ==> v@[lo + k] == w@[k],
        decreases wn - i,
    {
        if v[lo + i] != w.get_char(i) {
            proof {
                assert(v@.subrange(lo as int, hi as int)[i as int] != w@[i as int]);
            }
            return false;
        }
        i = i + 1;
    }
    proof {
        assert(v@.subrange(lo as int, hi as int) =~= w@);
    }
    true
}

/// The characters from `lo` to `hi` as an owned string.
fn range_string(v: &Vec<char>, lo: usize, hi: usize) -> (r: String)
    requires
        lo <= hi <= v@.len(),
    ensures
        r@ == v@.subrange(lo as int, hi as int),
{
    let mut out = String::new();
    let mut i = lo;
    proof {
        assert(out@ =~= v@.subrange(lo as int, lo as int));
    }
    while i < hi
        invariant
            lo <= i <= hi <= v@.len(),
            out@ == v@.subrange(lo as int, i as int),
        decreases hi - i,
    {
        json::push_char(&mut out, v[i]);
        proof {
            assert(v@.subrange(lo as int, i + 1) =~= v@.subrange(lo as int, i as int).push(
                v@[i as int],
            ));
        }
        i = i + 1;
    }
    out
}

/// Parses one line of input into a command. The line is trimmed, the first
/// word picks the command, and the rest — for the commands that take one —
/// is the argument: a title for `add`, an id for `delete` and `complete`.
/// Malformed lines are rejected with a message saying what was wrong.
pub fn parse_command(input: &str) -> (r: Result<Command, &'static str>)
    ensures
        ({
            let t = trimmed(input@);
            let h = head_of(t);
            if h == "add"@ {
                match tail_of(t) {
                    Some(x) => r matches Ok(c) && c matches Command::Add(title) && title@ == x,
                    None => r matches Err(e) && e@ == "title is required"@,
                }
            } else if h == "delete"@ {
                match tail_of(t) {
                    Some(x) => if id_ok(x) {
                        r matches Ok(c) && c matches Command::Delete(n) && n as int == dec_val(
                            id_text(x),
                        )
                    } else {
                        r matches Err(e) && e@ == "id must be a number"@
                    },
                    None => r matches Err(e) && e@ == "id is required"@,
                }
            } else if h == "complete"@ {
                match tail_of(t) {
                    Some(x) => if id_ok(x) {
                        r matches Ok(c) && c matches Command::Complete(n) && n as int == dec_val(
                            id_text(x),
                        )
                    } else {
                        r matches Err(e) && e@ == "id must be a number"@
                    },
                    None => r matches Err(e) && e@ == "id is required"@,
                }
            } else if h == "list"@ {
                r matches Ok(c) && c matches Command::List
            } else if h == "exit"@ {
                r matches Ok(c) && c matches Command::Exit
            } else if h == "help"@ {
                r matches Ok(c) && c matches Command::Help
            } else {
                r matches Err(e) && e@ == "unknown command"@
            }
        }),
{
    let v = json::str_chars(input);
    let n = v.len();
    // Trim both ends.
    let mut lo: usize = 0;
    proof {
        assert(v@.skip(0) =~= v@);
    }
    while lo < n && is_input_ws(v[lo])
        invariant
            lo <= n,
            n == v@.len(),
            v@ == input@,
            trim_front(input@) == trim_front(v@.skip(lo as int)),
        decreases n - lo,
    {
        proof {
            assert(v@.skip(lo as int)[0] == v@[lo as int]);
            assert(v@.skip(lo as int).skip(1) =~= v@.skip(lo + 1));
        }
        lo = lo + 1;
    }
    proof {
        if lo < n {
            assert(v@.skip(lo as int)[0] == v@[lo as int]);
        }
        assert(trim_front(input@) == v@.skip(lo as int));
    }
    let mut hi: usize = n;
    while hi > lo && is_input_ws(v[hi - 1])
        invariant
            lo <= hi <= n,
            n == v@.len(),
            v@ == input@,
            trim_front(input@) == v@.skip(lo as int),
            trim_back(v@.skip(lo as int)) == trim_back(v@.subrange(lo as int, hi as int)),
        decreases hi,
    {
        proof {
            let cur = v@.subrange(lo as int, hi as int);
            assert(cur.last() == v@[hi - 1]);
            assert(cur.drop_last() =~= v@.subrange(lo as int, hi - 1));
        }
        hi = hi - 1;
    }
    let ghost t = trimmed(input@);
    proof {
        let cur = v@.subrange(lo as int, hi as int);
        if hi > lo {
            assert(cur.last() == v@[hi - 1]);
        }
        assert(trim_back(cur) == cur);
        assert(v@.skip(n as int).len() == 0);
        assert(t == v@.subrange(lo as int, hi as int));
    }
    // Split at the first space.
    let mut sp: usize = lo;
    while sp < hi && v[sp] != ' '
        invariant
            lo <= sp <= hi <= n,
            n == v@.len(),
            v@ == input@,
            forall|k: int| lo <= k < sp ==> v@[k] != ' ',
        decreases hi - sp,
    {
        sp = sp + 1;
    }
    proof {
        assert(t == v@.subrange(lo as int, hi as int));
        assert(forall|k: int| 0 <= k < sp - lo ==> #[trigger] t[k] != ' ');
        if sp < hi {
            assert(t[sp - lo] == v@[sp as int]);
        }
        lemma_head_tail(t, sp - lo);
        assert(t.take(sp - lo) =~= v@.subrange(lo as int, sp as int));
        if sp < hi {
            assert(t.skip(sp - lo + 1) =~= v@.subrange(sp + 1, hi as int));
        }
    }
    if range_is(&v, lo, sp, "add") {
        if sp < hi {
            let title = range_string(&v, sp + 1, hi);
            Ok(Command::Add(title))
        } else {
            Err("title is required")
        }
    } else if range_is(&v, lo, sp, "delete") {
        if sp < hi {
            let arg = range_string(&v, sp + 1, hi);
            match parse_id(Some(arg.as_str())) {
                Ok(id) => Ok(Command::Delete(id)),
                Err(e) => Err(e),
            }
        } else {
            match parse_id(None) {
                Ok(id) => Ok(Command::Delete(id)),
                Err(e) => Err(e),
            }
        }
    } else if range_is(&v, lo, sp, "complete") {
        if sp < hi {
            let arg = range_string(&v, sp + 1, hi);
            match parse_id(Some(arg.as_str())) {
                Ok(id) => Ok(Command::Complete(id)),
                Err(e) => Err(e),
            }
        } else {
            match parse_id(None) {
                Ok(id) => Ok(Command::Complete(id)),
                Err(e) => Err(e),
            }
        }
    } else if range_is(&v, lo, sp, "list") {
        Ok(Command::List)
    } else if range_is(&v, lo, sp, "exit") {
        Ok(Command::Exit)
    } else if range_is(&v, lo, sp, "help") {
        Ok(Command::Help)
    } else {
        Err("unknown command")
    }
}

/// Executable test for a decimal digit.
fn is_digit_ch(c: char) -> (b: bool)
    ensures
        b == json::is_digit(c),
{
    let u = c as u32;
    48 <= u && u <= 57
}

/// The numeric value of a digit character.
fn digit_value(c: char) -> (d: u8)
    requires
        json::is_digit(c),
    ensures
        d as int == c as int - 48,
{
    (c as u32 - 48) as u8
}

/// Executable test for the whitespace trimmed off a command line.
fn is_input_ws(c: char) -> (b: bool)
    ensures
        b == json::is_ws(c),
{
    c == ' ' || c == '\n' || c == '\t' || c == '\r'
}

} // verus!
