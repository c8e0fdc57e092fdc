//! The persisted file format: a JSON array of objects, one per item, each
//! `{ "id": <integer>, "title": <string>, "status": "Pending"|"Completed" }`.
//! The renderer writes one item per line inside a bracketed block; the
//! parser accepts any whitespace between tokens and the object fields in any
//! order, so files written by hand load as well as files written here.

use vstd::prelude::*;

use crate::models::{ItemView, TodoItem, TodoStatus};

verus! {

// ---------------------------------------------------------------------------
// Rendering: the item list as a sequence of characters.
// ---------------------------------------------------------------------------

/// The decimal digit character for a value below ten.
pub open spec fn digit_char(d: int) -> char {
    ((48 + d) as u8) as char
}

/// The lower-case hexadecimal digit character for a value below sixteen.
pub open spec fn hex_char(d: int) -> char {
    if d < 10 {
        digit_char(d)
    } else {
        ((87 + d) as u8) as char
    }
}

/// The decimal digits of `n`, most significant first, no sign, no padding.
pub open spec fn dec_digits(n: nat) -> Seq<char>
    decreases n,
{
    if n < 10 {
        seq![digit_char(n as int)]
    } else {
        dec_digits(n / 10).push(digit_char((n % 10) as int))
    }
}

/// How one title character is written inside a JSON string: quote and
/// backslash get a backslash escape, the common control characters get their
/// short escapes, the remaining control characters a `\u00XX` escape, and
/// everything else stands as itself.
pub open spec fn esc_char(c: char) -> Seq<char> {
    if c == '"' {
        seq!['\\', '"']
    } else if c == '\\' {
        seq!['\\', '\\']
    } else if c == '\n' {
        seq!['\\', 'n']
    } else if c == '\r' {
        seq!['\\', 'r']
    } else if c == '\t' {
        seq!['\\', 't']
    } else if (c as int) < 32 {
        seq!['\\', 'u', '0', '0', hex_char(c as int / 16), hex_char(c as int % 16)]
    } else {
        seq![c]
    }
}

/// A whole title, escaped character by character.
pub open spec fn esc(s: Seq<char>) -> Seq<char>
    decreases s.len(),
{
    if s.len() == 0 {
        Seq::empty()
    } else {
        esc_char(s[0]) + esc(s.skip(1))
    }
}

/// The status strings of the file format.
pub open spec fn status_text(s: TodoStatus) -> Seq<char> {
    match s {
        TodoStatus::Pending => "Pending"@,
        TodoStatus::Completed => "Completed"@,
    }
}

/// One item as a JSON object on a single line.
pub open spec fn ser_item(it: ItemView) -> Seq<char> {
    "{ \"id\": "@ + dec_digits(it.id as nat) + ", \"title\": \""@ + esc(it.title)
        + "\", \"status\": \""@ + status_text(it.status) + "\" }"@
}

/// The item lines of a non-empty list: each indented by two spaces, with a
/// comma and line break between consecutive items.
pub open spec fn ser_body(items: Seq<ItemView>) -> Seq<char>
    decreases items.len(),
{
    if items.len() == 0 {
        Seq::empty()
    } else if items.len() == 1 {
        "  "@ + ser_item(items[0])
    } else {
        "  "@ + ser_item(items[0]) + ",\n"@ + ser_body(items.skip(1))
    }
}

/// The whole file: `[]` for no items, else a bracketed block with one item
/// per line.
pub open spec fn render(items: Seq<ItemView>) -> Seq<char> {
    if items.len() == 0 {
        "[]"@
    } else {
        "[\n"@ + ser_body(items) + "\n]"@
    }
}

// ---------------------------------------------------------------------------
// Executable rendering.
// ---------------------------------------------------------------------------

/// Relies on `String::push`: appends exactly the one character.
#[verifier::external_body]
pub(crate) fn push_char(out: &mut String, c: char)
    ensures
        final(out)@ == old(out)@.push(c),
{
    out.push(c)
}

/// Appends the decimal digits of `n`.
fn write_dec(out: &mut String, n: usize)
    ensures
        final(out)@ == old(out)@ + dec_digits(n as nat),
    decreases n,
{
    if n < 10 {
        push_char(out, ((48 + n as u8)) as char);
        proof {
            assert(final(out)@ =~= old(out)@ + dec_digits(n as nat));
        }
    } else {
        write_dec(out, n / 10);
        push_char(out, (48 + (n % 10) as u8) as char);
        proof {
            assert(final(out)@ =~= old(out)@ + dec_digits(n as nat));
        }
    }
}

/// Escaping one more character extends the escaped text.
proof fn lemma_esc_push(s: Seq<char>, c: char)
    ensures
        esc(s.push(c)) == esc(s) + esc_char(c),
    decreases s.len(),
{
    if s.len() == 0 {
        assert(s.push(c)[0] == c);
        assert(s.push(c).skip(1) =~= Seq::<char>::empty());
        assert(esc(Seq::<char>::empty()) == Seq::<char>::empty());
        assert(esc(s.push(c)) =~= esc(s) + esc_char(c));
    } else {
        assert(s.push(c)[0] == s[0]);
        assert(s.push(c).skip(1) =~= s.skip(1).push(c));
        lemma_esc_push(s.skip(1), c);
        assert(esc(s.push(c)) == esc_char(s[0]) + (esc(s.skip(1)) + esc_char(c)));
        assert(esc(s.push(c)) =~= esc(s) + esc_char(c));
    }
}

/// Appends the escaped form of one character.
fn write_esc_char(out: &mut String, c: char)
    ensures
        final(out)@ == old(out)@ + esc_char(c),
{
    if c == '"' {
        out.append("\\\"");
        proof {
            reveal_strlit("\\\"");
            assert(final(out)@ =~= old(out)@ + esc_char(c));
        }
    } else if c == '\\' {
        out.append("\\\\");
        proof {
            reveal_strlit("\\\\");
            assert(final(out)@ =~= old(out)@ + esc_char(c));
        }
    } else if c == '\n' {
        out.append("\\n");
        proof {
            reveal_strlit("\\n");
            assert(final(out)@ =~= old(out)@ + esc_char(c));
        }
    } else if c == '\r' {
        out.append("\\r");
        proof {
            reveal_strlit("\\r");
            assert(final(out)@ =~= old(out)@ + esc_char(c));
        }
    } else if c == '\t' {
        out.append("\\t");
        proof {
            reveal_strlit("\\t");
            assert(final(out)@ =~= old(out)@ + esc_char(c));
        }
    } else if (c as u32) < 32 {
        out.append("\\u00");
        let v = c as u32;
        let hi = (v / 16) as u8;
        let lo = (v % 16) as u8;
        push_char(out, (if hi < 10 { 48 + hi } else { 87 + hi }) as char);
        push_char(out, (if lo < 10 { 48 + lo } else { 87 + lo }) as char);
        proof {
            reveal_strlit("\\u00");
            assert(final(out)@ =~= old(out)@ + esc_char(c));
        }
    } else {
        push_char(out, c);
        proof {
            assert(final(out)@ =~= old(out)@ + esc_char(c));
        }
    }
}

/// Appends the escaped form of a whole title.
fn write_esc(out: &mut String, s: &str)
    ensures
        final(out)@ == old(out)@ + esc(s@),
{
    let n = s.unicode_len();
    let mut i: usize = 0;
    proof {
        assert(s@.take(0) =~= Seq::<char>::empty());
        assert(out@ =~= old(out)@ + esc(s@.take(0)));
    }
    while i < n
        invariant
            n == s@.len(),
            i <= n,
            out@ == old(out)@ + esc(s@.take(i as int)),
        decreases n - i,
    {
        let c = s.get_char(i);
        write_esc_char(out, c);
        proof {
            assert(s@.take(i + 1) =~= s@.take(i as int).push(s@[i as int]));
            lemma_esc_push(s@.take(i as int), s@[i as int]);
        }
        i = i + 1;
    }
    proof {
        assert(s@.take(n as int) =~= s@);
    }
}

/// Appends one item as a JSON object on a single line.
fn write_item(out: &mut String, t: &TodoItem)
    ensures
        final(out)@ == old(out)@ + ser_item(t@),
{
    out.append("{ \"id\": ");
    write_dec(out, t.id);
    out.append(", \"title\": \"");
    write_esc(out, t.title.as_str());
    out.append("\", \"status\": \"");
    match t.status {
        TodoStatus::Pending => out.append("Pending"),
        TodoStatus::Completed => out.append("Completed"),
    }
    out.append("\" }");
    proof {
        assert(final(out)@ =~= old(out)@ + ser_item(t@));
    }
}

/// Appends the item lines from index `i` on; the list is non-empty and `i`
/// is a valid index.
fn write_body(out: &mut String, todos: &Vec<TodoItem>, i: usize)
    requires
        i < todos@.len(),
    ensures
        final(out)@ == old(out)@ + ser_body(todos@.map_values(|t: TodoItem| t@).skip(i as int)),
    decreases todos@.len() - i,
{
    let ghost items = todos@.map_values(|t: TodoItem| t@).skip(i as int);
    let n = todos.len();
    out.append("  ");
    write_item(out, &todos[i]);
    proof {
        assert(items[0] == todos@[i as int]@);
    }
    if i + 1 < n {
        out.append(",\n");
        write_body(out, todos, i + 1);
        proof {
            assert(todos@.map_values(|t: TodoItem| t@).skip(i + 1) =~= items.skip(1));
            assert(final(out)@ =~= old(out)@ + ser_body(items));
        }
    } else {
        proof {
            assert(items.len() == 1);
            assert(final(out)@ =~= old(out)@ + ser_body(items));
        }
    }
}

// ---------------------------------------------------------------------------
// Parsing: from a sequence of characters back to an item list. Each spec
// function consumes a prefix of its input and hands back the rest.
// ---------------------------------------------------------------------------

/// The whitespace the parser skips between tokens.
pub open spec fn is_ws(c: char) -> bool {
    c == ' ' || c == '\n' || c == '\t' || c == '\r'
}

/// A decimal digit.
pub open spec fn is_digit(c: char) -> bool {
    48 <= c as int <= 57
}

/// A lower-case hexadecimal digit or decimal digit.
pub open spec fn is_hex(c: char) -> bool {
    is_digit(c) || 97 <= c as int <= 102
}

/// The value of a hexadecimal digit character.
pub open spec fn hex_val(c: char) -> int {
    if is_digit(c) {
        c as int - 48
    } else {
        c as int - 87
    }
}

/// The input with its leading whitespace removed.
pub open spec fn p_ws(s: Seq<char>) -> Seq<char>
    decreases s.len(),
{
    if s.len() > 0 && is_ws(s[0]) {
        p_ws(s.skip(1))
    } else {
        s
    }
}

/// A JSON string body, read from just after the opening quote to just after
/// the closing quote; `acc` holds the characters decoded so far. Accepts the
/// short escapes and `\u` escapes of code points below 256; an unknown
/// escape or an unterminated string fails.
pub open spec fn p_str(s: Seq<char>, acc: Seq<char>) -> Option<(Seq<char>, Seq<char>)>
    decreases s.len(),
{
    if s.len() == 0 {
        None
    } else if s[0] == '"' {
        Some((acc, s.skip(1)))
    } else if s[0] == '\\' {
        if s.len() < 2 {
            None
        } else {
            let e = s[1];
            if e == '"' || e == '\\' || e == '/' {
                p_str(s.skip(2), acc.push(e))
            } else if e == 'n' {
                p_str(s.skip(2), acc.push('\n'))
            } else if e == 'r' {
                p_str(s.skip(2), acc.push('\r'))
            } else if e == 't' {
                p_str(s.skip(2), acc.push('\t'))
            } else if e == 'b' {
                p_str(s.skip(2), acc.push('\u{8}'))
            } else if e == 'f' {
                p_str(s.skip(2), acc.push('\u{c}'))
            } else if e == 'u' {
                if s.len() < 6 || !(is_hex(s[2]) && is_hex(s[3]) && is_hex(s[4]) && is_hex(s[5])) {
                    None
                } else {
                    let v = hex_val(s[2]) * 4096 + hex_val(s[3]) * 256 + hex_val(s[4]) * 16 + hex_val(s[5]);
                    if v < 256 {
                        p_str(s.skip(6), acc.push((v as u8) as char))
                    } else {
                        None
                    }
                }
            } else {
                None
            }
        }
    } else {
        p_str(s.skip(1), acc.push(s[0]))
    }
}

/// A run of decimal digits folded onto `acc`, left to right; stops at the
/// first non-digit.
pub open spec fn p_num(s: Seq<char>, acc: int) -> (int, Seq<char>)
    decreases s.len(),
{
    if s.len() > 0 && is_digit(s[0]) {
        p_num(s.skip(1), acc * 10 + (s[0] as int - 48))
    } else {
        (acc, s)
    }
}

/// An id value: at least one digit, and the value must fit the id type.
pub open spec fn p_id(s: Seq<char>) -> Option<(int, Seq<char>)> {
    if s.len() > 0 && is_digit(s[0]) {
        let (v, r) = p_num(s, 0);
        if v <= usize::MAX as int {
            Some((v, r))
        } else {
            None
        }
    } else {
        None
    }
}

/// The fields of an object seen so far; each may appear exactly once.
pub ghost struct PartItem {
    pub id: Option<int>,
    pub title: Option<Seq<char>>,
    pub status: Option<TodoStatus>,
}

/// No field seen yet.
pub open spec fn empty_part() -> PartItem {
    PartItem { id: None, title: None, status: None }
}

/// The member list of an object, read from just after `{` or just after a
/// separating comma: one `"key": value` member, then either `,` and more
/// members or `}`. A key may not repeat, unknown keys fail, and the object
/// must end with all three fields seen. The fuel bounds the recursion; four
/// distinct keys cannot occur, so any well-formed object fits the fuel the
/// callers pass.
pub open spec fn p_members(s: Seq<char>, p: PartItem, fuel: nat) -> Option<(ItemView, Seq<char>)>
    decreases fuel,
{
    if fuel == 0 {
        None
    } else {
        let s1 = p_ws(s);
        if s1.len() == 0 || s1[0] != '"' {
            None
        } else {
            match p_str(s1.skip(1), Seq::empty()) {
                None => None,
                Some((key, s2)) => {
                    let s3 = p_ws(s2);
                    if s3.len() == 0 || s3[0] != ':' {
                        None
                    } else {
                        let s4 = p_ws(s3.skip(1));
                        if key == "id"@ {
                            if p.id is Some {
                                None
                            } else {
                                match p_id(s4) {
                                    None => None,
                                    Some((n, s5)) => p_after(
                                        s5,
                                        PartItem { id: Some(n), title: p.title, status: p.status },
                                        (fuel - 1) as nat,
                                    ),
                                }
                            }
                        } else if key == "title"@ {
                            if p.title is Some {
                                None
                            } else if s4.len() == 0 || s4[0] != '"' {
                                None
                            } else {
                                match p_str(s4.skip(1), Seq::empty()) {
                                    None => None,
                                    Some((t, s5)) => p_after(
                                        s5,
                                        PartItem { id: p.id, title: Some(t), status: p.status },
                                        (fuel - 1) as nat,
                                    ),
                                }
                            }
                        } else if key == "status"@ {
                            if p.status is Some {
                                None
                            } else if s4.len() == 0 || s4[0] != '"' {
                                None
                            } else {
                                match p_str(s4.skip(1), Seq::empty()) {
                                    None => None,
                                    Some((t, s5)) => if t == "Pending"@ {
                                        p_after(
                                            s5,
                                            PartItem { id: p.id, title: p.title, status: Some(TodoStatus::Pending) },
                                            (fuel - 1) as nat,
                                        )
                                    } else if t == "Completed"@ {
                                        p_after(
                                            s5,
                                            PartItem { id: p.id, title: p.title, status: Some(TodoStatus::Completed) },
                                            (fuel - 1) as nat,
                                        )
                                    } else {
                                        None
                                    },
                                }
                            }
                        } else {
                            None
                        }
                    }
                },
            }
        }
    }
}

/// After one member: either a comma and further members, or the closing
/// brace, which yields the item when all three fields were seen.
pub open spec fn p_after(s: Seq<char>, p: PartItem, fuel: nat) -> Option<(ItemView, Seq<char>)>
    decreases fuel,
{
    if fuel == 0 {
        None
    } else {
        let s1 = p_ws(s);
        if s1.len() == 0 {
            None
        } else if s1[0] == ',' {
            p_members(s1.skip(1), p, (fuel - 1) as nat)
        } else if s1[0] == '}' {
            match (p.id, p.title, p.status) {
                (Some(id), Some(title), Some(status)) => Some(
                    (ItemView { id, title, status }, s1.skip(1)),
                ),
                _ => None,
            }
        } else {
            None
        }
    }
}

/// The member fuel: three members and a closing brace use six steps; eight
/// leaves slack, and no accepted object can need more.
pub open spec fn member_fuel() -> nat {
    8
}

/// One object, read from its opening brace.
pub open spec fn p_obj(s: Seq<char>) -> Option<(ItemView, Seq<char>)> {
    if s.len() > 0 && s[0] == '{' {
        p_members(s.skip(1), empty_part(), member_fuel())
    } else {
        None
    }
}

/// Skipping whitespace never lengthens the input.
proof fn lemma_p_ws_len(s: Seq<char>)
    ensures
        p_ws(s).len() <= s.len(),
    decreases s.len(),
{
    if s.len() > 0 && is_ws(s[0]) {
        lemma_p_ws_len(s.skip(1));
    }
}

/// A parsed string consumes at least its closing quote.
proof fn lemma_p_str_len(s: Seq<char>, acc: Seq<char>)
    ensures
        match p_str(s, acc) {
            Some((t, r)) => r.len() < s.len(),
            None => true,
        },
    decreases s.len(),
{
    if s.len() == 0 {
    } else if s[0] == '"' {
    } else if s[0] == '\\' {
        if s.len() >= 2 {
            let e = s[1];
            if e == '"' || e == '\\' || e == '/' {
                lemma_p_str_len(s.skip(2), acc.push(e));
            } else if e == 'n' {
                lemma_p_str_len(s.skip(2), acc.push('\n'));
            } else if e == 'r' {
                lemma_p_str_len(s.skip(2), acc.push('\r'));
            } else if e == 't' {
                lemma_p_str_len(s.skip(2), acc.push('\t'));
            } else if e == 'b' {
                lemma_p_str_len(s.skip(2), acc.push('\u{8}'));
            } else if e == 'f' {
                lemma_p_str_len(s.skip(2), acc.push('\u{c}'));
            } else if e == 'u' {
                if s.len() >= 6 && is_hex(s[2]) && is_hex(s[3]) && is_hex(s[4]) && is_hex(s[5]) {
                    let v = hex_val(s[2]) * 4096 + hex_val(s[3]) * 256 + hex_val(s[4]) * 16 + hex_val(s[5]);
                    if v < 256 {
                        lemma_p_str_len(s.skip(6), acc.push((v as u8) as char));
                    }
                }
            }
        }
    } else {
        lemma_p_str_len(s.skip(1), acc.push(s[0]));
    }
}

/// Digit folding never lengthens the input, and never shrinks a
/// non-negative accumulator.
proof fn lemma_p_num_len(s: Seq<char>, acc: int)
    requires
        acc >= 0,
    ensures
        p_num(s, acc).1.len() <= s.len(),
        p_num(s, acc).0 >= acc,
    decreases s.len(),
{
    if s.len() > 0 && is_digit(s[0]) {
        lemma_p_num_len(s.skip(1), acc * 10 + (s[0] as int - 48));
    }
}

/// A parsed object member list consumes at least its closing brace.
proof fn lemma_p_members_len(s: Seq<char>, p: PartItem, fuel: nat)
    ensures
        match p_members(s, p, fuel) {
            Some((it, r)) => r.len() < s.len(),
            None => true,
        },
        match p_after(s, p, fuel) {
            Some((it, r)) => r.len() < s.len(),
            None => true,
        },
    decreases fuel,
{
    if fuel == 0 {
        return;
    }
    lemma_p_ws_len(s);
    let s1 = p_ws(s);
    // The member-list side.
    if s1.len() > 0 && s1[0] == '"' {
        match p_str(s1.skip(1), Seq::empty()) {
            None => {},
            Some((key, s2)) => {
                lemma_p_str_len(s1.skip(1), Seq::empty());
                lemma_p_ws_len(s2);
                let s3 = p_ws(s2);
                if s3.len() > 0 && s3[0] == ':' {
                    lemma_p_ws_len(s3.skip(1));
                    let s4 = p_ws(s3.skip(1));
                    if key == "id"@ && p.id is None {
                        match p_id(s4) {
                            None => {},
                            Some((n, s5)) => {
                                lemma_p_num_len(s4, 0);
                                lemma_p_members_len(
                                    s5,
                                    PartItem { id: Some(n), title: p.title, status: p.status },
                                    (fuel - 1) as nat,
                                );
                            },
                        }
                    } else if key == "title"@ && p.title is None && s4.len() > 0 && s4[0] == '"' {
                        match p_str(s4.skip(1), Seq::empty()) {
                            None => {},
                            Some((t, s5)) => {
                                lemma_p_str_len(s4.skip(1), Seq::empty());
                                lemma_p_members_len(
                                    s5,
                                    PartItem { id: p.id, title: Some(t), status: p.status },
                                    (fuel - 1) as nat,
                                );
                            },
                        }
                    } else if key == "status"@ && p.status is None && s4.len() > 0 && s4[0] == '"' {
                        match p_str(s4.skip(1), Seq::empty()) {
                            None => {},
                            Some((t, s5)) => {
                                lemma_p_str_len(s4.skip(1), Seq::empty());
                                lemma_p_members_len(
                                    s5,
                                    PartItem { id: p.id, title: p.title, status: Some(TodoStatus::Pending) },
                                    (fuel - 1) as nat,
                                );
                                lemma_p_members_len(
                                    s5,
                                    PartItem { id: p.id, title: p.title, status: Some(TodoStatus::Completed) },
                                    (fuel - 1) as nat,
                                );
                            },
                        }
                    }
                }
            },
        }
    }
    // The after-member side.
    if s1.len() > 0 && s1[0] == ',' {
        lemma_p_members_len(s1.skip(1), p, (fuel - 1) as nat);
    }
}

/// The elements of the array, read with the opening bracket already
/// consumed: whitespace, an object, then either a comma and more elements
/// or the closing bracket.
pub open spec fn p_items(s: Seq<char>, acc: Seq<ItemView>) -> Option<(Seq<ItemView>, Seq<char>)>
    decreases s.len()
        via p_items_dec
{
    let s1 = p_ws(s);
    if s1.len() == 0 || s1[0] != '{' {
        None
    } else {
        match p_obj(s1) {
            None => None,
            Some((it, s2)) => {
                let s3 = p_ws(s2);
                if s3.len() == 0 {
                    None
                } else if s3[0] == ',' {
                    p_items(s3.skip(1), acc.push(it))
                } else if s3[0] == ']' {
                    Some((acc.push(it), s3.skip(1)))
                } else {
                    None
                }
            },
        }
    }
}

#[via_fn]
proof fn p_items_dec(s: Seq<char>, acc: Seq<ItemView>) {
    lemma_p_ws_len(s);
    let s1 = p_ws(s);
    if s1.len() > 0 && s1[0] == '{' {
        lemma_p_members_len(s1.skip(1), empty_part(), member_fuel());
        match p_obj(s1) {
            None => {},
            Some((it, s2)) => {
                lemma_p_ws_len(s2);
            },
        }
    }
}

/// A whole file: an array of objects with nothing but whitespace around it.
pub open spec fn p_top(s: Seq<char>) -> Option<Seq<ItemView>> {
    let s1 = p_ws(s);
    if s1.len() == 0 || s1[0] != '[' {
        None
    } else {
        let s2 = p_ws(s1.skip(1));
        if s2.len() > 0 && s2[0] == ']' {
            if p_ws(s2.skip(1)).len() == 0 {
                Some(Seq::empty())
            } else {
                None
            }
        } else {
            match p_items(s1.skip(1), Seq::empty()) {
                None => None,
                Some((items, r)) => if p_ws(r).len() == 0 {
                    Some(items)
                } else {
                    None
                },
            }
        }
    }
}

// ---------------------------------------------------------------------------
// The round trip: parsing a rendered list gives the list back. The lemmas
// walk the parser through the rendered text piece by piece.
// ---------------------------------------------------------------------------

/// Skipping whitespace steps over an all-whitespace prefix.
proof fn lemma_p_ws_concat(w: Seq<char>, r: Seq<char>)
    requires
        forall|t: int| 0 <= t < w.len() ==> is_ws(#[trigger] w[t]),
    ensures
        p_ws(w + r) == p_ws(r),
    decreases w.len(),
{
    if w.len() == 0 {
        assert(w + r =~= r);
    } else {
        assert((w + r)[0] == w[0]);
        assert((w + r).skip(1) =~= w.skip(1) + r);
        assert(forall|t: int| 0 <= t < w.skip(1).len() ==> is_ws(#[trigger] w.skip(1)[t]));
        lemma_p_ws_concat(w.skip(1), r);
    }
}

/// Skipping whitespace stops at a non-whitespace head.
proof fn lemma_p_ws_stop(r: Seq<char>)
    requires
        r.len() == 0 || !is_ws(r[0]),
    ensures
        p_ws(r) == r,
{
}

/// Every character of a rendered number is a digit, and digits carry their
/// value.
proof fn lemma_dec_digits_are_digits(n: nat)
    ensures
        dec_digits(n).len() >= 1,
        forall|t: int| 0 <= t < dec_digits(n).len() ==> is_digit(#[trigger] dec_digits(n)[t]),
    decreases n,
{
    if n < 10 {
        assert(dec_digits(n)[0] == digit_char(n as int));
        assert(is_digit(digit_char(n as int)));
    } else {
        lemma_dec_digits_are_digits(n / 10);
        assert forall|t: int| 0 <= t < dec_digits(n).len() implies is_digit(
            #[trigger] dec_digits(n)[t],
        ) by {
            if t < dec_digits(n).len() - 1 {
                assert(dec_digits(n)[t] == dec_digits(n / 10)[t]);
            } else {
                assert(dec_digits(n)[t] == digit_char((n % 10) as int));
            }
        }
    }
}

/// The power of ten that one more digit block shifts by.
spec fn shift_of(n: nat) -> int
    decreases n,
{
    if n < 10 {
        10
    } else {
        shift_of(n / 10) * 10
    }
}

/// The digit shift is positive.
proof fn lemma_shift_pos(n: nat)
    ensures
        shift_of(n) >= 10,
    decreases n,
{
    if n >= 10 {
        lemma_shift_pos(n / 10);
    }
}

/// A control character's two hexadecimal digits read back to its value.
proof fn lemma_ctl_hex(c: char)
    requires
        (c as int) < 32,
    ensures
        is_hex(hex_char((c as int) / 16)),
        is_hex(hex_char((c as int) % 16)),
        hex_val(hex_char((c as int) / 16)) == (c as int) / 16,
        hex_val(hex_char((c as int) % 16)) == (c as int) % 16,
        ((c as int) as u8) as char == c,
{
    let hi = (c as int) / 16;
    let lo = (c as int) % 16;
    assert(0 <= hi < 2);
    assert(0 <= lo < 16);
    if lo < 10 {
        assert(hex_char(lo) == digit_char(lo));
        assert(digit_char(lo) as int == 48 + lo);
    } else {
        assert(hex_char(lo) as int == 87 + lo);
    }
    assert(hex_char(hi) as int == 48 + hi);
}

/// Folding the rendered digits of `n` onto an accumulator shifts the
/// accumulator past them and adds `n`.
proof fn lemma_p_num_digits(n: nat, acc: int, r: Seq<char>)
    requires
        acc >= 0,
    ensures
        p_num(dec_digits(n) + r, acc) == p_num(r, acc * shift_of(n) + n),
    decreases n,
{
    lemma_dec_digits_are_digits(n);
    let s = dec_digits(n) + r;
    if n < 10 {
        assert(s[0] == digit_char(n as int));
        assert(s.skip(1) =~= r);
        assert(s[0] as int - 48 == n);
        assert(p_num(s, acc) == p_num(r, acc * 10 + n));
    } else {
        let d = digit_char((n % 10) as int);
        assert(dec_digits(n) =~= dec_digits(n / 10) + seq![d]);
        assert(s =~= dec_digits(n / 10) + (seq![d] + r));
        lemma_p_num_digits(n / 10, acc, seq![d] + r);
        let mid = acc * shift_of(n / 10) + n / 10;
        assert(p_num(s, acc) == p_num(seq![d] + r, mid));
        assert((seq![d] + r)[0] == d);
        assert((seq![d] + r).skip(1) =~= r);
        assert(is_digit(d) && d as int - 48 == n % 10);
        lemma_shift_pos(n / 10);
        assert(mid >= 0) by (nonlinear_arith)
            requires
                mid == acc * shift_of(n / 10) + n / 10,
                acc >= 0,
                shift_of(n / 10) >= 10,
                n >= 10,
        {
        }
        assert(p_num(seq![d] + r, mid) == p_num(r, mid * 10 + n % 10));
        assert(mid * 10 + n % 10 == acc * shift_of(n) + n) by (nonlinear_arith)
            requires
                mid == acc * shift_of(n / 10) + n / 10,
                shift_of(n) == shift_of(n / 10) * 10,
                n >= 10,
        {
        }
    }
}

/// Reading an id off the rendered digits of `n` yields `n` when something
/// other than a digit follows.
proof fn lemma_p_id_digits(n: nat, r: Seq<char>)
    requires
        n <= usize::MAX as nat,
        r.len() == 0 || !is_digit(r[0]),
    ensures
        p_id(dec_digits(n) + r) == Some((n as int, r)),
{
    lemma_dec_digits_are_digits(n);
    let s = dec_digits(n) + r;
    assert(s[0] == dec_digits(n)[0]);
    lemma_p_num_digits(n, 0, r);
    assert(0 * shift_of(n) + n == n);
    if r.len() > 0 {
        assert(p_num(r, n as int) == (n as int, r));
    }
}

/// A character the renderer leaves unescaped.
spec fn plain_char(c: char) -> bool {
    c != '"' && c != '\\' && c as int >= 32
}

/// Escaping text of plain characters changes nothing.
proof fn lemma_esc_plain(t: Seq<char>)
    requires
        forall|i: int| 0 <= i < t.len() ==> plain_char(#[trigger] t[i]),
    ensures
        esc(t) == t,
    decreases t.len(),
{
    if t.len() > 0 {
        assert(plain_char(t[0]));
        assert(esc_char(t[0]) == seq![t[0]]);
        lemma_esc_plain(t.skip(1));
        assert(esc(t) =~= t);
    }
}

/// Reading a string body off escaped text followed by the closing quote
/// yields the text back.
#[verifier::rlimit(100)]
proof fn lemma_p_str_esc(t: Seq<char>, acc: Seq<char>, r: Seq<char>)
    ensures
        p_str(esc(t) + seq!['"'] + r, acc) == Some((acc + t, r)),
    decreases t.len(),
{
    let s = esc(t) + seq!['"'] + r;
    if t.len() == 0 {
        assert(s =~= seq!['"'] + r);
        assert(s[0] == '"');
        assert(s.skip(1) =~= r);
        assert(acc + t =~= acc);
    } else {
        let c = t[0];
        let t1 = t.skip(1);
        let rest = esc(t1) + seq!['"'] + r;
        assert(esc(t) == esc_char(c) + esc(t1));
        if c == '"' || c == '\\' {
            assert(esc_char(c) =~= seq!['\\', c]);
            assert(s =~= seq!['\\', c] + rest);
            assert(s[0] == '\\' && s[1] == c);
            assert(s.skip(2) =~= rest);
            lemma_p_str_esc(t1, acc.push(c), r);
            assert(acc.push(c) + t1 =~= acc + t);
        } else if c == '\n' {
            assert(esc_char(c) =~= seq!['\\', 'n']);
            assert(s =~= seq!['\\', 'n'] + rest);
            assert(s[0] == '\\' && s[1] == 'n');
            assert(s.skip(2) =~= rest);
            lemma_p_str_esc(t1, acc.push('\n'), r);
            assert(acc.push('\n') + t1 =~= acc + t);
        } else if c == '\r' {
            assert(esc_char(c) =~= seq!['\\', 'r']);
            assert(s =~= seq!['\\', 'r'] + rest);
            assert(s[0] == '\\' && s[1] == 'r');
            assert(s.skip(2) =~= rest);
            lemma_p_str_esc(t1, acc.push('\r'), r);
            assert(acc.push('\r') + t1 =~= acc + t);
        } else if c == '\t' {
            assert(esc_char(c) =~= seq!['\\', 't']);
            assert(s =~= seq!['\\', 't'] + rest);
            assert(s[0] == '\\' && s[1] == 't');
            assert(s.skip(2) =~= rest);
            lemma_p_str_esc(t1, acc.push('\t'), r);
            assert(acc.push('\t') + t1 =~= acc + t);
        } else if (c as int) < 32 {
            let hi = hex_char(c as int / 16);
            let lo = hex_char(c as int % 16);
            assert(esc_char(c) =~= seq!['\\', 'u', '0', '0', hi, lo]);
            assert(s =~= seq!['\\', 'u', '0', '0', hi, lo] + rest);
            assert(s[0] == '\\' && s[1] == 'u' && s[2] == '0' && s[3] == '0' && s[4] == hi && s[5]
                == lo);
            assert(s.len() >= 6);
            assert(is_hex('0') && hex_val('0') == 0);
            lemma_ctl_hex(c);
            let v = hex_val(s[2]) * 4096 + hex_val(s[3]) * 256 + hex_val(s[4]) * 16 + hex_val(s[5]);
            assert(v == c as int);
            assert(((v as u8) as char) == c);
            assert(s.skip(6) =~= rest);
            lemma_p_str_esc(t1, acc.push(c), r);
            assert(acc.push(c) + t1 =~= acc + t);
        } else {
            assert(esc_char(c) =~= seq![c]);
            assert(s =~= seq![c] + rest);
            assert(s[0] == c);
            assert(s.skip(1) =~= rest);
            lemma_p_str_esc(t1, acc.push(c), r);
            assert(acc.push(c) + t1 =~= acc + t);
        }
    }
}

/// The status texts hold no character the renderer would escape.
proof fn lemma_status_text_plain(st: TodoStatus)
    ensures
        esc(status_text(st)) == status_text(st),
{
    reveal_strlit("Pending");
    reveal_strlit("Completed");
    match st {
        TodoStatus::Pending => {
            assert forall|i: int| 0 <= i < status_text(st).len() implies plain_char(
                #[trigger] status_text(st)[i],
            ) by {}
        },
        TodoStatus::Completed => {
            assert forall|i: int| 0 <= i < status_text(st).len() implies plain_char(
                #[trigger] status_text(st)[i],
            ) by {}
        },
    }
    lemma_esc_plain(status_text(st));
}

/// Reading the status member and the closing brace off the rendered text
/// completes the item.
proof fn lemma_status_member(st: TodoStatus, id: int, title: Seq<char>, r: Seq<char>)
    ensures
        p_members(
            " \"status\": \""@ + (status_text(st) + ("\" }"@ + r)),
            PartItem { id: Some(id), title: Some(title), status: None },
            4,
        ) == Some((ItemView { id, title, status: st }, r)),
{
    reveal_strlit(" \"status\": \"");
    reveal_strlit("status");
    reveal_strlit("id");
    reveal_strlit("title");
    reveal_strlit("Pending");
    reveal_strlit("Completed");
    reveal_strlit("\" }");
    let p = PartItem { id: Some(id), title: Some(title), status: None };
    let s = " \"status\": \""@ + (status_text(st) + ("\" }"@ + r));
    let st_text = status_text(st);
    let tail = seq![':', ' ', '"'] + (st_text + ("\" }"@ + r));
    // Leading space, then the quoted key.
    assert(s =~= seq![' '] + (seq!['"'] + ("status"@ + (seq!['"'] + tail))));
    lemma_p_ws_concat(seq![' '], seq!['"'] + ("status"@ + (seq!['"'] + tail)));
    lemma_p_ws_stop(seq!['"'] + ("status"@ + (seq!['"'] + tail)));
    let s1 = p_ws(s);
    assert(s1 == seq!['"'] + ("status"@ + (seq!['"'] + tail)));
    assert(s1[0] == '"');
    assert forall|i: int| 0 <= i < "status"@.len() implies plain_char(#[trigger] "status"@[i]) by {}
    lemma_esc_plain("status"@);
    assert(s1.skip(1) =~= esc("status"@) + seq!['"'] + tail);
    lemma_p_str_esc("status"@, Seq::empty(), tail);
    assert(p_str(s1.skip(1), Seq::empty()) == Some((Seq::empty() + "status"@, tail)));
    let key = Seq::empty() + "status"@;
    assert(key =~= "status"@);
    assert(key != "id"@ && key != "title"@);
    // Colon, space, then the quoted status text.
    lemma_p_ws_stop(tail);
    assert(tail[0] == ':');
    assert(tail.skip(1) =~= seq![' '] + (seq!['"'] + (st_text + ("\" }"@ + r).skip(0))));
    assert(tail.skip(1) =~= seq![' '] + (seq!['"'] + (st_text + ("\" }"@ + r))));
    lemma_p_ws_concat(seq![' '], seq!['"'] + (st_text + ("\" }"@ + r)));
    lemma_p_ws_stop(seq!['"'] + (st_text + ("\" }"@ + r)));
    let s4 = p_ws(tail.skip(1));
    assert(s4 == seq!['"'] + (st_text + ("\" }"@ + r)));
    assert(s4[0] == '"');
    let close = seq![' ', '}'] + r;
    lemma_status_text_plain(st);
    assert(s4.skip(1) =~= esc(st_text) + seq!['"'] + close);
    lemma_p_str_esc(st_text, Seq::empty(), close);
    assert(p_str(s4.skip(1), Seq::empty()) == Some((Seq::empty() + st_text, close)));
    assert(Seq::empty() + st_text =~= st_text);
    // The status text picks the status value; then space and closing brace.
    match st {
        TodoStatus::Pending => {
            assert(st_text == "Pending"@);
            assert(st_text != "Completed"@);
        },
        TodoStatus::Completed => {
            assert(st_text == "Completed"@);
            assert(st_text != "Pending"@);
        },
    }
    lemma_p_ws_concat(seq![' '], seq!['}'] + r);
    lemma_p_ws_stop(seq!['}'] + r);
    assert(close =~= seq![' '] + (seq!['}'] + r));
    let s5 = p_ws(close);
    assert(s5 == seq!['}'] + r);
    assert(s5[0] == '}');
    assert(s5.skip(1) =~= r);
    let done = PartItem { id: Some(id), title: Some(title), status: Some(st) };
    assert(p_after(close, done, 3) == Some((ItemView { id, title, status: st }, r)));
}

/// Reading the title member continues into the status member.
proof fn lemma_title_member(st: TodoStatus, id: int, title: Seq<char>, r: Seq<char>)
    ensures
        p_members(
            " \"title\": \""@ + (esc(title) + ("\", \"status\": \""@ + (status_text(st) + ("\" }"@
                + r)))),
            PartItem { id: Some(id), title: None, status: None },
            6,
        ) == Some((ItemView { id, title, status: st }, r)),
{
    reveal_strlit(" \"title\": \"");
    reveal_strlit("\", \"status\": \"");
    reveal_strlit(" \"status\": \"");
    reveal_strlit("title");
    reveal_strlit("id");
    let p = PartItem { id: Some(id), title: None, status: None };
    let after_title = "\", \"status\": \""@ + (status_text(st) + ("\" }"@ + r));
    let s = " \"title\": \""@ + (esc(title) + after_title);
    let tail = seq![':', ' ', '"'] + (esc(title) + after_title);
    // Leading space, then the quoted key.
    assert(s =~= seq![' '] + (seq!['"'] + ("title"@ + (seq!['"'] + tail))));
    lemma_p_ws_concat(seq![' '], seq!['"'] + ("title"@ + (seq!['"'] + tail)));
    lemma_p_ws_stop(seq!['"'] + ("title"@ + (seq!['"'] + tail)));
    let s1 = p_ws(s);
    assert(s1 == seq!['"'] + ("title"@ + (seq!['"'] + tail)));
    assert(s1[0] == '"');
    assert forall|i: int| 0 <= i < "title"@.len() implies plain_char(#[trigger] "title"@[i]) by {}
    lemma_esc_plain("title"@);
    assert(s1.skip(1) =~= esc("title"@) + seq!['"'] + tail);
    lemma_p_str_esc("title"@, Seq::empty(), tail);
    let key = Seq::empty() + "title"@;
    assert(key =~= "title"@);
    assert(key != "id"@);
    // Colon, space, then the quoted title value.
    lemma_p_ws_stop(tail);
    assert(tail[0] == ':');
    let rest_m = seq![','] + (" \"status\": \""@ + (status_text(st) + ("\" }"@ + r)));
    assert(tail.skip(1) =~= seq![' '] + (seq!['"'] + (esc(title) + after_title)));
    lemma_p_ws_concat(seq![' '], seq!['"'] + (esc(title) + after_title));
    lemma_p_ws_stop(seq!['"'] + (esc(title) + after_title));
    let s4 = p_ws(tail.skip(1));
    assert(s4 == seq!['"'] + (esc(title) + after_title));
    assert(s4[0] == '"');
    assert(s4.skip(1) =~= esc(title) + seq!['"'] + rest_m);
    lemma_p_str_esc(title, Seq::empty(), rest_m);
    assert(p_str(s4.skip(1), Seq::empty()) == Some((Seq::empty() + title, rest_m)));
    assert(Seq::empty() + title =~= title);
    // Comma, then the status member.
    let p2 = PartItem { id: Some(id), title: Some(title), status: None };
    lemma_p_ws_stop(rest_m);
    assert(rest_m[0] == ',');
    assert(rest_m.skip(1) =~= " \"status\": \""@ + (status_text(st) + ("\" }"@ + r)));
    lemma_status_member(st, id, title, r);
    assert(p_after(rest_m, p2, 5) == Some((ItemView { id, title, status: st }, r)));
}

/// Reading the id member continues into the title member.
proof fn lemma_id_member(st: TodoStatus, id: int, title: Seq<char>, r: Seq<char>)
    requires
        0 <= id <= usize::MAX as int,
    ensures
        p_members(
            " \"id\": "@ + (dec_digits(id as nat) + (", \"title\": \""@ + (esc(title) + ("\", \"status\": \""@
                + (status_text(st) + ("\" }"@ + r)))))),
            empty_part(),
            8,
        ) == Some((ItemView { id, title, status: st }, r)),
{
    reveal_strlit(" \"id\": ");
    reveal_strlit(", \"title\": \"");
    reveal_strlit(" \"title\": \"");
    reveal_strlit("id");
    let after_id = ", \"title\": \""@ + (esc(title) + ("\", \"status\": \""@ + (status_text(st) + (
    "\" }"@ + r))));
    let dd = dec_digits(id as nat);
    let s = " \"id\": "@ + (dd + after_id);
    let tail = seq![':', ' '] + (dd + after_id);
    // Leading space, then the quoted key.
    assert(s =~= seq![' '] + (seq!['"'] + ("id"@ + (seq!['"'] + tail))));
    lemma_p_ws_concat(seq![' '], seq!['"'] + ("id"@ + (seq!['"'] + tail)));
    lemma_p_ws_stop(seq!['"'] + ("id"@ + (seq!['"'] + tail)));
    let s1 = p_ws(s);
    assert(s1 == seq!['"'] + ("id"@ + (seq!['"'] + tail)));
    assert(s1[0] == '"');
    assert forall|i: int| 0 <= i < "id"@.len() implies plain_char(#[trigger] "id"@[i]) by {}
    lemma_esc_plain("id"@);
    assert(s1.skip(1) =~= esc("id"@) + seq!['"'] + tail);
    lemma_p_str_esc("id"@, Seq::empty(), tail);
    let key = Seq::empty() + "id"@;
    assert(key =~= "id"@);
    // Colon, space, then the digits.
    lemma_p_ws_stop(tail);
    assert(tail[0] == ':');
    assert(tail.skip(1) =~= seq![' '] + (dd + after_id));
    lemma_dec_digits_are_digits(id as nat);
    assert(!is_ws(dd[0]) && (dd + after_id)[0] == dd[0]);
    lemma_p_ws_concat(seq![' '], dd + after_id);
    lemma_p_ws_stop(dd + after_id);
    let s4 = p_ws(tail.skip(1));
    assert(s4 == dd + after_id);
    assert(after_id[0] == ',' && !is_digit(','));
    lemma_p_id_digits(id as nat, after_id);
    assert(p_id(s4) == Some((id, after_id)));
    // Comma, then the title member.
    let p1 = PartItem { id: Some(id), title: None, status: None };
    lemma_p_ws_stop(after_id);
    assert(after_id.skip(1) =~= " \"title\": \""@ + (esc(title) + ("\", \"status\": \""@ + (
    status_text(st) + ("\" }"@ + r)))));
    lemma_title_member(st, id, title, r);
    assert(p_after(after_id, p1, 7) == Some((ItemView { id, title, status: st }, r)));
}

/// Reading an object off a rendered item gives the item back.
proof fn lemma_p_obj_ser(it: ItemView, r: Seq<char>)
    requires
        0 <= it.id <= usize::MAX as int,
    ensures
        p_obj(ser_item(it) + r) == Some((it, r)),
{
    reveal_strlit("{ \"id\": ");
    reveal_strlit(" \"id\": ");
    let s = ser_item(it) + r;
    assert(s =~= seq!['{'] + (" \"id\": "@ + (dec_digits(it.id as nat) + (", \"title\": \""@ + (esc(
    it.title) + ("\", \"status\": \""@ + (status_text(it.status) + ("\" }"@ + r))))))));
    assert(s[0] == '{');
    assert(s.skip(1) =~= " \"id\": "@ + (dec_digits(it.id as nat) + (", \"title\": \""@ + (esc(
    it.title) + ("\", \"status\": \""@ + (status_text(it.status) + ("\" }"@ + r)))))));
    lemma_id_member(it.status, it.id, it.title, r);
    assert(ItemView { id: it.id, title: it.title, status: it.status } == it);
}

/// A rendered item starts with its opening brace.
proof fn lemma_ser_item_head(it: ItemView)
    ensures
        ser_item(it).len() > 0,
        ser_item(it)[0] == '{',
{
    reveal_strlit("{ \"id\": ");
}

/// Reading array elements off the rendered item lines appends the items to
/// the accumulator.
#[verifier::rlimit(100)]
proof fn lemma_p_items_ser(items: Seq<ItemView>, acc: Seq<ItemView>, r: Seq<char>)
    requires
        items.len() >= 1,
        forall|i: int| 0 <= i < items.len() ==> 0 <= #[trigger] items[i].id <= usize::MAX as int,
    ensures
        p_items(ser_body(items) + ("\n]"@ + r), acc) == Some((acc + items, r)),
    decreases items.len(),
{
    reveal_strlit("\n]");
    reveal_strlit("  ");
    reveal_strlit(",\n");
    let s = ser_body(items) + ("\n]"@ + r);
    let it = items[0];
    lemma_ser_item_head(it);
    if items.len() == 1 {
        let after = "\n]"@ + r;
        assert(s =~= seq![' ', ' '] + (ser_item(it) + after));
        lemma_p_ws_concat(seq![' ', ' '], ser_item(it) + after);
        lemma_p_ws_stop(ser_item(it) + after);
        let s1 = p_ws(s);
        assert(s1 == ser_item(it) + after);
        assert(s1[0] == '{');
        lemma_p_obj_ser(it, after);
        assert(after =~= seq!['\n'] + (seq![']'] + r));
        lemma_p_ws_concat(seq!['\n'], seq![']'] + r);
        lemma_p_ws_stop(seq![']'] + r);
        let s3 = p_ws(after);
        assert(s3 == seq![']'] + r);
        assert(s3[0] == ']');
        assert(s3.skip(1) =~= r);
        assert(acc.push(it) =~= acc + items);
    } else {
        let more = ser_body(items.skip(1)) + ("\n]"@ + r);
        let after = seq![',', '\n'] + more;
        assert(ser_body(items) =~= "  "@ + ser_item(it) + ",\n"@ + ser_body(items.skip(1)));
        reveal_strlit("  ");
        reveal_strlit(",\n");
        assert(s =~= seq![' ', ' '] + (ser_item(it) + after));
        lemma_p_ws_concat(seq![' ', ' '], ser_item(it) + after);
        lemma_p_ws_stop(ser_item(it) + after);
        let s1 = p_ws(s);
        assert(s1 == ser_item(it) + after);
        assert(s1[0] == '{');
        lemma_p_obj_ser(it, after);
        lemma_p_ws_stop(after);
        let s3 = p_ws(after);
        assert(s3 == after && s3[0] == ',');
        assert(s3.skip(1) =~= seq!['\n'] + more);
        assert(forall|i: int|
            0 <= i < items.skip(1).len() ==> 0 <= #[trigger] items.skip(1)[i].id <= usize::MAX as int);
        lemma_p_items_ser(items.skip(1), acc.push(it), r);
        lemma_p_ws_concat(seq!['\n'], more);
        assert(p_ws(seq!['\n'] + more) == p_ws(more));
        assert(p_items(seq!['\n'] + more, acc.push(it)) == p_items(more, acc.push(it)));
        assert(acc.push(it) + items.skip(1) =~= acc + items);
    }
}

/// Parsing a rendered item list gives the items back: the codec half of the
/// save-then-load round trip. The ids must fit the id type, which every
/// well-formed manager guarantees.
#[verifier::rlimit(100)]
pub proof fn lemma_parse_render_round_trip(items: Seq<ItemView>)
    requires
        forall|i: int| 0 <= i < items.len() ==> 0 <= #[trigger] items[i].id <= usize::MAX as int,
    ensures
        p_top(render(items)) == Some(items),
{
    let s = render(items);
    if items.len() == 0 {
        reveal_strlit("[]");
        assert(s[0] == '[');
        lemma_p_ws_stop(s);
        assert(s.skip(1) =~= seq![']']);
        lemma_p_ws_stop(seq![']']);
        let s2 = p_ws(s.skip(1));
        assert(s2 == seq![']'] && s2[0] == ']');
        assert(s2.skip(1) =~= Seq::<char>::empty());
        assert(p_ws(Seq::<char>::empty()).len() == 0);
        assert(items =~= Seq::<ItemView>::empty());
    } else {
        reveal_strlit("[\n");
        reveal_strlit("\n]");
        reveal_strlit("  ");
        reveal_strlit(",\n");
        assert(s =~= seq!['['] + (seq!['\n'] + (ser_body(items) + ("\n]"@ + Seq::<char>::empty()))));
        assert(s[0] == '[');
        lemma_p_ws_stop(s);
        let s1 = p_ws(s);
        assert(s1 == s);
        let body = ser_body(items) + ("\n]"@ + Seq::<char>::empty());
        assert(s1.skip(1) =~= seq!['\n'] + body);
        lemma_p_items_ser(items, Seq::empty(), Seq::empty());
        lemma_p_ws_concat(seq!['\n'], body);
        assert(p_items(seq!['\n'] + body, Seq::<ItemView>::empty()) == p_items(
            body,
            Seq::<ItemView>::empty(),
        ));
        assert(p_items(s1.skip(1), Seq::<ItemView>::empty()) == Some(
            (Seq::<ItemView>::empty() + items, Seq::<char>::empty()),
        ));
        // The head of the skipped text is the first item's brace, not `]`.
        let it = items[0];
        lemma_ser_item_head(it);
        reveal_strlit("  ");
        assert(body =~= seq![' ', ' '] + (ser_item(it) + (if items.len() == 1 {
            "\n]"@ + Seq::<char>::empty()
        } else {
            seq![',', '\n'] + (ser_body(items.skip(1)) + ("\n]"@ + Seq::<char>::empty()))
        })));
        let s2 = p_ws(s1.skip(1));
        lemma_p_ws_concat(seq!['\n', ' ', ' '], ser_item(it) + (if items.len() == 1 {
            "\n]"@ + Seq::<char>::empty()
        } else {
            seq![',', '\n'] + (ser_body(items.skip(1)) + ("\n]"@ + Seq::<char>::empty()))
        }));
        assert(s1.skip(1) =~= seq!['\n', ' ', ' '] + (ser_item(it) + (if items.len() == 1 {
            "\n]"@ + Seq::<char>::empty()
        } else {
            seq![',', '\n'] + (ser_body(items.skip(1)) + ("\n]"@ + Seq::<char>::empty()))
        })));
        lemma_p_ws_stop(ser_item(it) + (if items.len() == 1 {
            "\n]"@ + Seq::<char>::empty()
        } else {
            seq![',', '\n'] + (ser_body(items.skip(1)) + ("\n]"@ + Seq::<char>::empty()))
        }));
        assert(s2[0] == '{');
        assert(p_ws(Seq::<char>::empty()).len() == 0);
        assert(Seq::<ItemView>::empty() + items =~= items);
    }
}

// ---------------------------------------------------------------------------
// Executable parsing.
// ---------------------------------------------------------------------------

/// Skipping within a suffix is skipping further in the whole text.
proof fn lemma_skip_skip(s: Seq<char>, i: int, k: int)
    requires
        0 <= i,
        0 <= k,
        i + k <= s.len(),
    ensures
        s.skip(i).skip(k) == s.skip(i + k),
{
    assert(s.skip(i).skip(k) =~= s.skip(i + k));
}

/// The characters of a string slice, one vector entry each.
pub(crate) fn str_chars(s: &str) -> (v: Vec<char>)
    ensures
        v@ == s@,
{
    let n = s.unicode_len();
    let mut v: Vec<char> = Vec::new();
    proof {
        assert(v@ =~= s@.take(0));
    }
    let mut i: usize = 0;
    while i < n
        invariant
            i <= n,
            n == s@.len(),
            v@ == s@.take(i as int),
        decreases n - i,
    {
        v.push(s.get_char(i));
        proof {
            assert(s@.take(i + 1) =~= s@.take(i as int).push(s@[i as int]));
        }
        i = i + 1;
    }
    proof {
        assert(s@.take(n as int) =~= s@);
    }
    v
}

/// Whether two string slices hold the same characters.
fn str_eq(a: &str, b: &str) -> (r: bool)
    ensures
        r == (a@ == b@),
{
    let na = a.unicode_len();
    let nb = b.unicode_len();
    if na != nb {
        return false;
    }
    let mut i: usize = 0;
    while i < na
        invariant
            i <= na,
            na == a@.len(),
            na == b@.len(),
            forall|k: int| 0 <= k < i ==> a@[k] == b@[k],
        decreases na - i,
    {
        if a.get_char(i) != b.get_char(i) {
            return false;
        }
        i = i + 1;
    }
    proof {
        assert(a@ =~= b@);
    }
    true
}

/// Executable test for the parser's whitespace set.
fn is_ws_char(c: char) -> (b: bool)
    ensures
        b == is_ws(c),
{
    c == ' ' || c == '\n' || c == '\t' || c == '\r'
}

/// Executable test for a decimal digit.
fn is_digit_char(c: char) -> (b: bool)
    ensures
        b == is_digit(c),
{
    let u = c as u32;
    48 <= u && u <= 57
}

/// Executable test for a lower-case hexadecimal digit.
fn is_hex_char(c: char) -> (b: bool)
    ensures
        b == is_hex(c),
{
    let u = c as u32;
    (48 <= u && u <= 57) || (97 <= u && u <= 102)
}

/// The value of a hexadecimal digit character.
fn hex_char_val(c: char) -> (r: u32)
    requires
        is_hex(c),
    ensures
        r as int == hex_val(c),
        r < 16,
{
    let u = c as u32;
    if u <= 57 {
        u - 48
    } else {
        u - 87
    }
}

/// The first index at or after `i` whose character is not whitespace.
fn skip_ws_at(v: &Vec<char>, i: usize) -> (j: usize)
    requires
        i <= v@.len(),
    ensures
        i <= j <= v@.len(),
        p_ws(v@.skip(i as int)) == v@.skip(j as int),
{
    let n = v.len();
    let mut j = i;
    while j < n && is_ws_char(v[j])
        invariant
            i <= j <= n,
            n == v@.len(),
            p_ws(v@.skip(i as int)) == p_ws(v@.skip(j as int)),
        decreases n - j,
    {
        proof {
            assert(v@.skip(j as int)[0] == v@[j as int]);
            lemma_skip_skip(v@, j as int, 1);
        }
        j = j + 1;
    }
    proof {
        if j < n {
            assert(v@.skip(j as int)[0] == v@[j as int]);
        }
        assert(p_ws(v@.skip(j as int)) == v@.skip(j as int));
    }
    j
}

/// A JSON string body starting at `i`, which sits just after the opening
/// quote; yields the decoded text and the index just after the closing
/// quote.
fn parse_str_at(v: &Vec<char>, i: usize) -> (r: Option<(String, usize)>)
    requires
        i <= v@.len(),
    ensures
        match r {
            Some(p) => i <= p.1 <= v@.len() && p_str(v@.skip(i as int), Seq::empty()) == Some(
                (p.0@, v@.skip(p.1 as int)),
            ),
            None => p_str(v@.skip(i as int), Seq::empty()) is None,
        },
{
    let n = v.len();
    let mut acc = String::new();
    let mut j = i;
    loop
        invariant
            i <= j <= n,
            n == v@.len(),
            p_str(v@.skip(i as int), Seq::empty()) == p_str(v@.skip(j as int), acc@),
        decreases n - j,
    {
        if j >= n {
            return None;
        }
        let c = v[j];
        proof {
            assert(v@.skip(j as int)[0] == v@[j as int]);
        }
        if c == '"' {
            proof {
                lemma_skip_skip(v@, j as int, 1);
            }
            return Some((acc, j + 1));
        } else if c == '\\' {
            if j + 1 >= n {
                return None;
            }
            let e = v[j + 1];
            proof {
                assert(v@.skip(j as int)[1] == v@[j + 1]);
            }
            if e == '"' || e == '\\' || e == '/' || e == 'n' || e == 'r' || e == 't' || e == 'b'
                || e == 'f' {
                let d = if e == 'n' {
                    '\n'
                } else if e == 'r' {
                    '\r'
                } else if e == 't' {
                    '\t'
                } else if e == 'b' {
                    '\u{8}'
                } else if e == 'f' {
                    '\u{c}'
                } else {
                    e
                };
                push_char(&mut acc, d);
                proof {
                    lemma_skip_skip(v@, j as int, 2);
                }
                j = j + 2;
            } else if e == 'u' {
                if n - j < 6 {
                    return None;
                }
                let (h2, h3, h4, h5) = (v[j + 2], v[j + 3], v[j + 4], v[j + 5]);
                proof {
                    assert(v@.skip(j as int)[2] == v@[j + 2]);
                    assert(v@.skip(j as int)[3] == v@[j + 3]);
                    assert(v@.skip(j as int)[4] == v@[j + 4]);
                    assert(v@.skip(j as int)[5] == v@[j + 5]);
                }
                if !(is_hex_char(h2) && is_hex_char(h3) && is_hex_char(h4) && is_hex_char(h5)) {
                    return None;
                }
                let val = hex_char_val(h2) * 4096 + hex_char_val(h3) * 256 + hex_char_val(h4) * 16
                    + hex_char_val(h5);
                if val >= 256 {
                    return None;
                }
                push_char(&mut acc, (val as u8) as char);
                proof {
                    lemma_skip_skip(v@, j as int, 6);
                }
                j = j + 6;
            } else {
                return None;
            }
        } else {
            push_char(&mut acc, c);
            proof {
                lemma_skip_skip(v@, j as int, 1);
            }
            j = j + 1;
        }
    }
}

/// A run of decimal digits starting at `i`, as an id value; fails when the
/// first character is not a digit or the value overflows the id type.
fn parse_id_at(v: &Vec<char>, i: usize) -> (r: Option<(usize, usize)>)
    requires
        i <= v@.len(),
    ensures
        match r {
            Some(p) => i <= p.1 <= v@.len() && p_id(v@.skip(i as int)) == Some(
                (p.0 as int, v@.skip(p.1 as int)),
            ),
            None => p_id(v@.skip(i as int)) is None,
        },
{
    let n = v.len();
    if i >= n {
        return None;
    }
    proof {
        assert(v@.skip(i as int)[0] == v@[i as int]);
    }
    if !is_digit_char(v[i]) {
        return None;
    }
    let mut acc: usize = 0;
    let mut j = i;
    while j < n && is_digit_char(v[j])
        invariant
            i <= j <= n,
            n == v@.len(),
            p_num(v@.skip(i as int), 0) == p_num(v@.skip(j as int), acc as int),
        decreases n - j,
    {
        let c = v[j];
        let d = (c as u32 - 48) as usize;
        proof {
            assert(v@.skip(j as int)[0] == v@[j as int]);
            lemma_skip_skip(v@, j as int, 1);
        }
        let stepped = match acc.checked_mul(10) {
            Some(m) => m.checked_add(d),
            None => None,
        };
        match stepped {
            Some(y) => {
                acc = y;
                j = j + 1;
            },
            None => {
                // The digits read so far already exceed the id type, so the
                // full value does too.
                proof {
                    assert(p_num(v@.skip(j as int), acc as int) == p_num(
                        v@.skip(j + 1),
                        acc as int * 10 + d,
                    ));
                    lemma_p_num_len(v@.skip(j + 1), acc as int * 10 + d);
                    assert(p_num(v@.skip(i as int), 0).0 > usize::MAX as int);
                }
                return None;
            },
        }
    }
    proof {
        if j < n {
            assert(v@.skip(j as int)[0] == v@[j as int]);
        }
        assert(p_num(v@.skip(j as int), acc as int) == (acc as int, v@.skip(j as int)));
    }
    Some((acc, j))
}

/// The fields gathered so far while reading an object.
pub open spec fn part_of(pid: Option<usize>, ptitle: Option<String>, pstat: Option<TodoStatus>) -> PartItem {
    PartItem {
        id: match pid {
            Some(x) => Some(x as int),
            None => None,
        },
        title: match ptitle {
            Some(t) => Some(t@),
            None => None,
        },
        status: pstat,
    }
}

/// The member list of an object, starting just after `{` or just after a
/// separating comma.
fn parse_members_at(
    v: &Vec<char>,
    i: usize,
    pid: Option<usize>,
    ptitle: Option<String>,
    pstat: Option<TodoStatus>,
    fuel: u8,
) -> (r: Option<(TodoItem, usize)>)
    requires
        i <= v@.len(),
    ensures
        match r {
            Some(p) => i <= p.1 <= v@.len() && p_members(
                v@.skip(i as int),
                part_of(pid, ptitle, pstat),
                fuel as nat,
            ) == Some((p.0@, v@.skip(p.1 as int))),
            None => p_members(v@.skip(i as int), part_of(pid, ptitle, pstat), fuel as nat) is None,
        },
    decreases fuel,
{
    if fuel == 0 {
        return None;
    }
    let n = v.len();
    let j1 = skip_ws_at(v, i);
    if j1 >= n {
        return None;
    }
    proof {
        assert(v@.skip(j1 as int)[0] == v@[j1 as int]);
    }
    if v[j1] != '"' {
        return None;
    }
    proof {
        lemma_skip_skip(v@, j1 as int, 1);
    }
    let key = match parse_str_at(v, j1 + 1) {
        None => {
            return None;
        },
        Some(p) => p,
    };
    let (key, j2) = key;
    let j3 = skip_ws_at(v, j2);
    if j3 >= n {
        return None;
    }
    proof {
        assert(v@.skip(j3 as int)[0] == v@[j3 as int]);
    }
    if v[j3] != ':' {
        return None;
    }
    proof {
        lemma_skip_skip(v@, j3 as int, 1);
    }
    let j4 = skip_ws_at(v, j3 + 1);
    if str_eq(key.as_str(), "id") {
        if pid.is_some() {
            return None;
        }
        match parse_id_at(v, j4) {
            None => None,
            Some((x, j5)) => parse_after_at(v, j5, Some(x), ptitle, pstat, fuel - 1),
        }
    } else if str_eq(key.as_str(), "title") {
        if ptitle.is_some() {
            return None;
        }
        if j4 >= n {
            return None;
        }
        proof {
            assert(v@.skip(j4 as int)[0] == v@[j4 as int]);
        }
        if v[j4] != '"' {
            return None;
        }
        proof {
            lemma_skip_skip(v@, j4 as int, 1);
        }
        match parse_str_at(v, j4 + 1) {
            None => None,
            Some((t, j5)) => parse_after_at(v, j5, pid, Some(t), pstat, fuel - 1),
        }
    } else if str_eq(key.as_str(), "status") {
        if pstat.is_some() {
            return None;
        }
        if j4 >= n {
            return None;
        }
        proof {
            assert(v@.skip(j4 as int)[0] == v@[j4 as int]);
        }
        if v[j4] != '"' {
            return None;
        }
        proof {
            lemma_skip_skip(v@, j4 as int, 1);
        }
        match parse_str_at(v, j4 + 1) {
            None => None,
            Some((t, j5)) => {
                if str_eq(t.as_str(), "Pending") {
                    parse_after_at(v, j5, pid, ptitle, Some(TodoStatus::Pending), fuel - 1)
                } else if str_eq(t.as_str(), "Completed") {
                    parse_after_at(v, j5, pid, ptitle, Some(TodoStatus::Completed), fuel - 1)
                } else {
                    None
                }
            },
        }
    } else {
        None
    }
}

/// After one member: a comma and more members, or the closing brace.
fn parse_after_at(
    v: &Vec<char>,
    i: usize,
    pid: Option<usize>,
    ptitle: Option<String>,
    pstat: Option<TodoStatus>,
    fuel: u8,
) -> (r: Option<(TodoItem, usize)>)
    requires
        i <= v@.len(),
    ensures
        match r {
            Some(p) => i <= p.1 <= v@.len() && p_after(
                v@.skip(i as int),
                part_of(pid, ptitle, pstat),
                fuel as nat,
            ) == Some((p.0@, v@.skip(p.1 as int))),
            None => p_after(v@.skip(i as int), part_of(pid, ptitle, pstat), fuel as nat) is None,
        },
    decreases fuel,
{
    if fuel == 0 {
        return None;
    }
    let n = v.len();
    let j1 = skip_ws_at(v, i);
    if j1 >= n {
        return None;
    }
    proof {
        assert(v@.skip(j1 as int)[0] == v@[j1 as int]);
    }
    let c = v[j1];
    if c == ',' {
        proof {
            lemma_skip_skip(v@, j1 as int, 1);
        }
        parse_members_at(v, j1 + 1, pid, ptitle, pstat, fuel - 1)
    } else if c == '}' {
        match (pid, ptitle, pstat) {
            (Some(id), Some(title), Some(status)) => {
                proof {
                    lemma_skip_skip(v@, j1 as int, 1);
                }
                Some((TodoItem { id, title, status }, j1 + 1))
            },
            _ => None,
        }
    } else {
        None
    }
}

/// The array elements, starting just after `[` or just after a separating
/// comma; `acc` holds the items read so far.
fn parse_items_at(v: &Vec<char>, i: usize, acc: Vec<TodoItem>) -> (r: Option<(Vec<TodoItem>, usize)>)
    requires
        i <= v@.len(),
    ensures
        match r {
            Some(p) => i <= p.1 <= v@.len() && p_items(
                v@.skip(i as int),
                acc@.map_values(|t: TodoItem| t@),
            ) == Some((p.0@.map_values(|t: TodoItem| t@), v@.skip(p.1 as int))),
            None => p_items(v@.skip(i as int), acc@.map_values(|t: TodoItem| t@)) is None,
        },
    decreases v@.len() - i,
{
    let n = v.len();
    let j1 = skip_ws_at(v, i);
    if j1 >= n {
        return None;
    }
    proof {
        assert(v@.skip(j1 as int)[0] == v@[j1 as int]);
    }
    if v[j1] != '{' {
        return None;
    }
    proof {
        lemma_skip_skip(v@, j1 as int, 1);
    }
    match parse_members_at(v, j1 + 1, None, None, None, 8) {
        None => None,
        Some((it, j2)) => {
            proof {
                lemma_p_members_len(v@.skip(j1 + 1), empty_part(), member_fuel());
            }
            let j3 = skip_ws_at(v, j2);
            if j3 >= n {
                return None;
            }
            proof {
                assert(v@.skip(j3 as int)[0] == v@[j3 as int]);
            }
            let c = v[j3];
            if c == ',' {
                let ghost items0 = acc@.map_values(|t: TodoItem| t@);
                let mut acc = acc;
                acc.push(it);
                proof {
                    lemma_skip_skip(v@, j3 as int, 1);
                    assert(acc@.map_values(|t: TodoItem| t@) =~= items0.push(it@));
                }
                parse_items_at(v, j3 + 1, acc)
            } else if c == ']' {
                let ghost items0 = acc@.map_values(|t: TodoItem| t@);
                let mut acc = acc;
                acc.push(it);
                proof {
                    lemma_skip_skip(v@, j3 as int, 1);
                    assert(acc@.map_values(|t: TodoItem| t@) =~= items0.push(it@));
                }
                Some((acc, j3 + 1))
            } else {
                None
            }
        },
    }
}

/// Parses the text of a persisted file: a JSON array of item objects with
/// nothing but whitespace around it. Yields the items in file order, or
/// nothing when the text does not have that shape.
pub fn parse_json(s: &str) -> (r: Option<Vec<TodoItem>>)
    ensures
        match r {
            Some(items) => p_top(s@) == Some(items@.map_values(|t: TodoItem| t@)),
            None => p_top(s@) is None,
        },
{
    let v = str_chars(s);
    let n = v.len();
    proof {
        assert(v@.skip(0) =~= v@);
    }
    let j1 = skip_ws_at(&v, 0);
    if j1 >= n {
        return None;
    }
    proof {
        assert(v@.skip(j1 as int)[0] == v@[j1 as int]);
    }
    if v[j1] != '[' {
        return None;
    }
    proof {
        lemma_skip_skip(v@, j1 as int, 1);
    }
    let j2 = skip_ws_at(&v, j1 + 1);
    if j2 < n && v[j2] == ']' {
        proof {
            assert(v@.skip(j2 as int)[0] == v@[j2 as int]);
            lemma_skip_skip(v@, j2 as int, 1);
        }
        let j3 = skip_ws_at(&v, j2 + 1);
        if j3 == n {
            let items: Vec<TodoItem> = Vec::new();
            proof {
                assert(items@.map_values(|t: TodoItem| t@) =~= Seq::<ItemView>::empty());
            }
            return Some(items);
        } else {
            return None;
        }
    }
    let none_yet: Vec<TodoItem> = Vec::new();
    proof {
        if j2 < n {
            assert(v@.skip(j2 as int)[0] == v@[j2 as int]);
        }
        assert(none_yet@.map_values(|t: TodoItem| t@) =~= Seq::<ItemView>::empty());
    }
    match parse_items_at(&v, j1 + 1, none_yet) {
        None => None,
        Some((items, j)) => {
            let j4 = skip_ws_at(&v, j);
            if j4 == n {
                Some(items)
            } else {
                None
            }
        },
    }
}

/// Renders an item list as the text of the persisted file.
pub fn render_items(todos: &Vec<TodoItem>) -> (r: String)
    ensures
        r@ == render(todos@.map_values(|t: TodoItem| t@)),
{
    let mut out = String::new();
    if todos.len() == 0 {
        out.append("[]");
        proof {
            assert(out@ =~= render(todos@.map_values(|t: TodoItem| t@)));
        }
        return out;
    }
    out.append("[\n");
    write_body(&mut out, todos, 0);
    out.append("\n]");
    proof {
        assert(todos@.map_values(|t: TodoItem| t@).skip(0) =~= todos@.map_values(|t: TodoItem| t@));
        assert(out@ =~= render(todos@.map_values(|t: TodoItem| t@)));
    }
    out
}

} // verus!
