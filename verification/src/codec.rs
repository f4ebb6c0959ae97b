use crate::error::BingoError;
use crate::template::{Goal, GoalModel, Template};
use vstd::prelude::*;

verus! {

// ---------------------------------------------------------------------------
// The catalog's external structured form: a compact textual tree of tiers,
// goals and tags. This module both writes it and reads it back, and proves
// that the two directions invert each other.
// ---------------------------------------------------------------------------
/// The escape sequence a character serializes to inside a quoted string:
/// quotes and backslashes are escaped, as are the five short control
/// escapes; everything else stands for itself.
pub open spec fn esc_char(c: char) -> Seq<char> {
    if c == '"' {
        seq!['\\', '"']
    } else if c == '\\' {
        seq!['\\', '\\']
    } else if c == '\n' {
        seq!['\\', 'n']
    } else if c == '\r' {
        seq!['\\', 'r']
    } else if c == '\t' {
        seq!['\\', 't']
    } else if c == '\u{8}' {
        seq!['\\', 'b']
    } else if c == '\u{c}' {
        seq!['\\', 'f']
    } else {
        seq![c]
    }
}

/// The body of a quoted string: each character escaped in order.
pub open spec fn ser_string_body(s: Seq<char>) -> Seq<char>
    decreases s.len(),
{
    if s.len() == 0 {
        Seq::empty()
    } else {
        esc_char(s[0]) + ser_string_body(s.skip(1))
    }
}

/// A quoted, escaped string.
pub open spec fn ser_string(s: Seq<char>) -> Seq<char> {
    seq!['"'] + ser_string_body(s) + seq!['"']
}

/// Comma-joined quoted strings.
pub open spec fn ser_str_list(l: Seq<Seq<char>>) -> Seq<char>
    decreases l.len(),
{
    if l.len() == 0 {
        Seq::empty()
    } else if l.len() == 1 {
        ser_string(l[0])
    } else {
        ser_string(l[0]) + seq![','] + ser_str_list(l.skip(1))
    }
}

/// One goal record: its name, then its tag list, under fixed keys.
pub open spec fn ser_goal(g: GoalModel) -> Seq<char> {
    seq!['{', '"', 'n', 'a', 'm', 'e', '"', ':'] + ser_string(g.name) + seq![
        ',',
        '"',
        't',
        'y',
        'p',
        'e',
        's',
        '"',
        ':',
        '[',
    ] + ser_str_list(g.types) + seq![']', '}']
}

/// Comma-joined goal records.
pub open spec fn ser_goal_list(l: Seq<GoalModel>) -> Seq<char>
    decreases l.len(),
{
    if l.len() == 0 {
        Seq::empty()
    } else if l.len() == 1 {
        ser_goal(l[0])
    } else {
        ser_goal(l[0]) + seq![','] + ser_goal_list(l.skip(1))
    }
}

/// One tier: its goal pool in brackets.
pub open spec fn ser_tier(p: Seq<GoalModel>) -> Seq<char> {
    seq!['['] + ser_goal_list(p) + seq![']']
}

/// Comma-joined tiers.
pub open spec fn ser_tier_list(cat: Seq<Seq<GoalModel>>) -> Seq<char>
    decreases cat.len(),
{
    if cat.len() == 0 {
        Seq::empty()
    } else if cat.len() == 1 {
        ser_tier(cat[0])
    } else {
        ser_tier(cat[0]) + seq![','] + ser_tier_list(cat.skip(1))
    }
}

/// The whole catalog in its compact external form.
pub open spec fn ser_template(cat: Seq<Seq<GoalModel>>) -> Seq<char> {
    seq!['['] + ser_tier_list(cat) + seq![']']
}

// ---------------------------------------------------------------------------
// Parsing. Each parser consumes a prefix of the character sequence and
// returns the parsed value with the remaining suffix, or nothing on
// malformed input. Whitespace is accepted between tokens; object keys must
// be `name` then `types`.
// ---------------------------------------------------------------------------
/// JSON insignificant whitespace.
pub open spec fn json_ws(c: char) -> bool {
    c == ' ' || c == '\t' || c == '\n' || c == '\r'
}

/// Drop leading whitespace.
pub open spec fn skip_ws(s: Seq<char>) -> Seq<char>
    decreases s.len(),
{
    if s.len() > 0 && json_ws(s[0]) {
        skip_ws(s.skip(1))
    } else {
        s
    }
}

/// The character an escape letter stands for, if it is a valid escape.
pub open spec fn unesc_char(c: char) -> Option<char> {
    if c == '"' {
        Some('"')
    } else if c == '\\' {
        Some('\\')
    } else if c == '/' {
        Some('/')
    } else if c == 'n' {
        Some('\n')
    } else if c == 'r' {
        Some('\r')
    } else if c == 't' {
        Some('\t')
    } else if c == 'b' {
        Some('\u{8}')
    } else if c == 'f' {
        Some('\u{c}')
    } else {
        None
    }
}

/// The body of a quoted string, after the opening quote: characters up to
/// the closing quote, with escapes resolved.
pub open spec fn parse_string_body(s: Seq<char>) -> Option<(Seq<char>, Seq<char>)>
    decreases s.len(),
{
    if s.len() == 0 {
        None
    } else if s[0] == '"' {
        Some((Seq::empty(), s.skip(1)))
    } else if s[0] == '\\' {
        if s.len() < 2 {
            None
        } else {
            match unesc_char(s[1]) {
                None => None,
                Some(c) => match parse_string_body(s.skip(2)) {
                    None => None,
                    Some(p) => Some((seq![c] + p.0, p.1)),
                },
            }
        }
    } else {
        match parse_string_body(s.skip(1)) {
            None => None,
            Some(p) => Some((seq![s[0]] + p.0, p.1)),
        }
    }
}

/// A quoted string.
pub open spec fn parse_string(s: Seq<char>) -> Option<(Seq<char>, Seq<char>)> {
    if s.len() > 0 && s[0] == '"' {
        parse_string_body(s.skip(1))
    } else {
        None
    }
}

/// `lit` as a mandatory prefix of `s`.
pub open spec fn expect_lit(s: Seq<char>, lit: Seq<char>) -> Option<Seq<char>> {
    if s.len() >= lit.len() && s.subrange(0, lit.len() as int) == lit {
        Some(s.skip(lit.len() as int))
    } else {
        None
    }
}

/// One or more comma-separated strings followed by the closing bracket.
pub open spec fn parse_str_items(s: Seq<char>) -> Option<(Seq<Seq<char>>, Seq<char>)>
    decreases s.len(),
{
    match parse_string(skip_ws(s)) {
        None => None,
        Some(p) => {
            let r = skip_ws(p.1);
            if r.len() == 0 {
                None
            } else if r[0] == ']' {
                Some((seq![p.0], r.skip(1)))
            } else if r[0] == ',' && r.skip(1).len() < s.len() {
                match parse_str_items(r.skip(1)) {
                    None => None,
                    Some(q) => Some((seq![p.0] + q.0, q.1)),
                }
            } else {
                None
            }
        },
    }
}

/// A bracketed, possibly empty list of strings.
pub open spec fn parse_str_list(s: Seq<char>) -> Option<(Seq<Seq<char>>, Seq<char>)> {
    let t = skip_ws(s);
    if t.len() == 0 || t[0] != '[' {
        None
    } else {
        let u = skip_ws(t.skip(1));
        if u.len() > 0 && u[0] == ']' {
            Some((Seq::empty(), u.skip(1)))
        } else {
            parse_str_items(t.skip(1))
        }
    }
}

/// One goal record: `{` `"name"` `:` string `,` `"types"` `:` strings `}`.
pub open spec fn parse_goal(s: Seq<char>) -> Option<(GoalModel, Seq<char>)> {
    let t = skip_ws(s);
    if t.len() == 0 || t[0] != '{' {
        None
    } else {
        match expect_lit(skip_ws(t.skip(1)), seq!['"', 'n', 'a', 'm', 'e', '"']) {
            None => None,
            Some(r1) => {
                let r2 = skip_ws(r1);
                if r2.len() == 0 || r2[0] != ':' {
                    None
                } else {
                    match parse_string(skip_ws(r2.skip(1))) {
                        None => None,
                        Some(pn) => {
                            let r3 = skip_ws(pn.1);
                            if r3.len() == 0 || r3[0] != ',' {
                                None
                            } else {
                                match expect_lit(
                                    skip_ws(r3.skip(1)),
                                    seq!['"', 't', 'y', 'p', 'e', 's', '"'],
                                ) {
                                    None => None,
                                    Some(r4) => {
                                        let r5 = skip_ws(r4);
                                        if r5.len() == 0 || r5[0] != ':' {
                                            None
                                        } else {
                                            match parse_str_list(r5.skip(1)) {
                                                None => None,
                                                Some(pt) => {
                                                    let r6 = skip_ws(pt.1);
                                                    if r6.len() == 0 || r6[0] != '}' {
                                                        None
                                                    } else {
                                                        Some(
                                                            (
                                                                GoalModel {
                                                                    name: pn.0,
                                                                    types: pt.0,
                                                                },
                                                                r6.skip(1),
                                                            ),
                                                        )
                                                    }
                                                },
                                            }
                                        }
                                    },
                                }
                            }
                        },
                    }
                }
            },
        }
    }
}

/// One or more comma-separated goals followed by the closing bracket.
pub open spec fn parse_goal_items(s: Seq<char>) -> Option<(Seq<GoalModel>, Seq<char>)>
    decreases s.len(),
{
    match parse_goal(s) {
        None => None,
        Some(p) => {
            let r = skip_ws(p.1);
            if r.len() == 0 {
                None
            } else if r[0] == ']' {
                Some((seq![p.0], r.skip(1)))
            } else if r[0] == ',' && r.skip(1).len() < s.len() {
                match parse_goal_items(r.skip(1)) {
                    None => None,
                    Some(q) => Some((seq![p.0] + q.0, q.1)),
                }
            } else {
                None
            }
        },
    }
}

/// A bracketed, possibly empty tier of goals.
pub open spec fn parse_tier(s: Seq<char>) -> Option<(Seq<GoalModel>, Seq<char>)> {
    let t = skip_ws(s);
    if t.len() == 0 || t[0] != '[' {
        None
    } else {
        let u = skip_ws(t.skip(1));
        if u.len() > 0 && u[0] == ']' {
            Some((Seq::empty(), u.skip(1)))
        } else {
            parse_goal_items(t.skip(1))
        }
    }
}

/// One or more comma-separated tiers followed by the closing bracket.
pub open spec fn parse_tier_items(s: Seq<char>) -> Option<(Seq<Seq<GoalModel>>, Seq<char>)>
    decreases s.len(),
{
    match parse_tier(s) {
        None => None,
        Some(p) => {
            let r = skip_ws(p.1);
            if r.len() == 0 {
                None
            } else if r[0] == ']' {
                Some((seq![p.0], r.skip(1)))
            } else if r[0] == ',' && r.skip(1).len() < s.len() {
                match parse_tier_items(r.skip(1)) {
                    None => None,
                    Some(q) => Some((seq![p.0] + q.0, q.1)),
                }
            } else {
                None
            }
        },
    }
}

/// The whole catalog from its external form: a bracketed list of tiers with
/// nothing but whitespace after it.
pub open spec fn parse_template(s: Seq<char>) -> Option<Seq<Seq<GoalModel>>> {
    let t = skip_ws(s);
    if t.len() == 0 || t[0] != '[' {
        None
    } else {
        let u = skip_ws(t.skip(1));
        let body = if u.len() > 0 && u[0] == ']' {
            Some((Seq::<Seq<GoalModel>>::empty(), u.skip(1)))
        } else {
            parse_tier_items(t.skip(1))
        };
        match body {
            None => None,
            Some(p) => {
                if skip_ws(p.1).len() == 0 {
                    Some(p.0)
                } else {
                    None
                }
            },
        }
    }
}

// ---------------------------------------------------------------------------
// Writing.
// ---------------------------------------------------------------------------
/// Relies on `core::iter::Iterator::collect` via `String::from_iter`: the
/// collected string holds exactly the characters of the slice, in order.
#[verifier::external_body]
fn string_from_chars(cs: &Vec<char>) -> (r: String)
    ensures
        r@ == cs@,
{
    cs.iter().collect()
}

/// Append one character's escape sequence.
fn write_escaped(c: char, out: &mut Vec<char>)
    ensures
        final(out)@ == old(out)@ + esc_char(c),
{
    if c == '"' {
        out.push('\\');
        out.push('"');
    } else if c == '\\' {
        out.push('\\');
        out.push('\\');
    } else if c == '\n' {
        out.push('\\');
        out.push('n');
    } else if c == '\r' {
        out.push('\\');
        out.push('r');
    } else if c == '\t' {
        out.push('\\');
        out.push('t');
    } else if c == '\u{8}' {
        out.push('\\');
        out.push('b');
    } else if c == '\u{c}' {
        out.push('\\');
        out.push('f');
    } else {
        out.push(c);
    }
    proof {
        assert(final(out)@ =~= old(out)@ + esc_char(c));
    }
}

/// Append the escaped characters of `s` from position `i` on.
fn write_string_tail(s: &str, i: usize, out: &mut Vec<char>)
    requires
        i <= s@.len(),
    ensures
        final(out)@ == old(out)@ + ser_string_body(s@.skip(i as int)),
    decreases s@.len() - i,
{
    let n = s.unicode_len();
    if i < n {
        let c = s.get_char(i);
        write_escaped(c, out);
        write_string_tail(s, i + 1, out);
        proof {
            assert(s@.skip(i as int).skip(1) =~= s@.skip(i as int + 1));
            assert(s@.skip(i as int)[0] == c);
            assert(final(out)@ =~= old(out)@ + ser_string_body(s@.skip(i as int)));
        }
    } else {
        proof {
            assert(s@.skip(i as int) =~= Seq::<char>::empty());
            assert(final(out)@ =~= old(out)@ + ser_string_body(s@.skip(i as int)));
        }
    }
}

/// Append a quoted, escaped string.
fn write_string(s: &str, out: &mut Vec<char>)
    ensures
        final(out)@ == old(out)@ + ser_string(s@),
{
    out.push('"');
    write_string_tail(s, 0, out);
    out.push('"');
    proof {
        assert(s@.skip(0) =~= s@);
        assert(final(out)@ =~= old(out)@ + ser_string(s@));
    }
}

/// Append the comma-joined strings of `l` from index `i` on.
fn write_str_list_from(l: &Vec<String>, i: usize, out: &mut Vec<char>)
    requires
        i <= l@.len(),
    ensures
        final(out)@ == old(out)@ + ser_str_list(l.deep_view().skip(i as int)),
    decreases l@.len() - i,
{
    let ghost dv = l.deep_view();
    if i < l.len() {
        write_string(l[i].as_str(), out);
        proof {
            assert(dv.skip(i as int)[0] == dv[i as int]);
            assert(dv[i as int] == l@[i as int]@);
        }
        if i + 1 < l.len() {
            out.push(',');
            write_str_list_from(l, i + 1, out);
            proof {
                assert(dv.skip(i as int).skip(1) =~= dv.skip(i as int + 1));
                assert(dv.skip(i as int).len() > 1);
                assert(final(out)@ =~= old(out)@ + ser_str_list(dv.skip(i as int)));
            }
        } else {
            proof {
                assert(dv.skip(i as int).len() == 1);
                assert(final(out)@ =~= old(out)@ + ser_str_list(dv.skip(i as int)));
            }
        }
    } else {
        proof {
            assert(dv.skip(i as int) =~= Seq::<Seq<char>>::empty());
            assert(final(out)@ =~= old(out)@ + ser_str_list(dv.skip(i as int)));
        }
    }
}

/// Append one goal record.
fn write_goal(g: &Goal, out: &mut Vec<char>)
    ensures
        final(out)@ == old(out)@ + ser_goal(g@),
{
    out.push('{');
    out.push('"');
    out.push('n');
    out.push('a');
    out.push('m');
    out.push('e');
    out.push('"');
    out.push(':');
    write_string(g.name.as_str(), out);
    out.push(',');
    out.push('"');
    out.push('t');
    out.push('y');
    out.push('p');
    out.push('e');
    out.push('s');
    out.push('"');
    out.push(':');
    out.push('[');
    write_str_list_from(&g.types, 0, out);
    out.push(']');
    out.push('}');
    proof {
        assert(g.types.deep_view().skip(0) =~= g@.types);
        assert(final(out)@ =~= old(out)@ + ser_goal(g@));
    }
}

/// Append the comma-joined goals of `p` from index `i` on.
fn write_goal_list_from(p: &Vec<Goal>, i: usize, out: &mut Vec<char>)
    requires
        i <= p@.len(),
    ensures
        final(out)@ == old(out)@ + ser_goal_list(p.deep_view().skip(i as int)),
    decreases p@.len() - i,
{
    let ghost dv = p.deep_view();
    if i < p.len() {
        write_goal(&p[i], out);
        proof {
            assert(dv.skip(i as int)[0] == dv[i as int]);
            assert(dv[i as int] == p@[i as int]@);
        }
        if i + 1 < p.len() {
            out.push(',');
            write_goal_list_from(p, i + 1, out);
            proof {
                assert(dv.skip(i as int).skip(1) =~= dv.skip(i as int + 1));
                assert(dv.skip(i as int).len() > 1);
                assert(final(out)@ =~= old(out)@ + ser_goal_list(dv.skip(i as int)));
            }
        } else {
            proof {
                assert(dv.skip(i as int).len() == 1);
                assert(final(out)@ =~= old(out)@ + ser_goal_list(dv.skip(i as int)));
            }
        }
    } else {
        proof {
            assert(dv.skip(i as int) =~= Seq::<GoalModel>::empty());
            assert(final(out)@ =~= old(out)@ + ser_goal_list(dv.skip(i as int)));
        }
    }
}

/// Append the comma-joined tiers of `cat` from index `i` on.
fn write_tier_list_from(cat: &Vec<Vec<Goal>>, i: usize, out: &mut Vec<char>)
    requires
        i <= cat@.len(),
    ensures
        final(out)@ == old(out)@ + ser_tier_list(cat.deep_view().skip(i as int)),
    decreases cat@.len() - i,
{
    let ghost dv = cat.deep_view();
    if i < cat.len() {
        out.push('[');
        write_goal_list_from(&cat[i], 0, out);
        out.push(']');
        proof {
            assert(cat@[i as int].deep_view().skip(0) =~= dv[i as int]);
            assert(dv.skip(i as int)[0] == dv[i as int]);
        }
        if i + 1 < cat.len() {
            out.push(',');
            write_tier_list_from(cat, i + 1, out);
            proof {
                assert(dv.skip(i as int).skip(1) =~= dv.skip(i as int + 1));
                assert(dv.skip(i as int).len() > 1);
                assert(final(out)@ =~= old(out)@ + ser_tier_list(dv.skip(i as int)));
            }
        } else {
            proof {
                assert(dv.skip(i as int).len() == 1);
                assert(final(out)@ =~= old(out)@ + ser_tier_list(dv.skip(i as int)));
            }
        }
    } else {
        proof {
            assert(dv.skip(i as int) =~= Seq::<Seq<GoalModel>>::empty());
            assert(final(out)@ =~= old(out)@ + ser_tier_list(dv.skip(i as int)));
        }
    }
}

impl Template {
    /// The catalog in its compact external structured form.
    pub fn to_json_string(&self) -> (r: String)
        ensures
            r@ == ser_template(self@),
    {
        let mut out: Vec<char> = Vec::new();
        out.push('[');
        write_tier_list_from(&self.0, 0, &mut out);
        out.push(']');
        proof {
            assert(self.0.deep_view().skip(0) =~= self@);
            assert(out@ =~= ser_template(self@));
        }
        string_from_chars(&out)
    }
}

// ---------------------------------------------------------------------------
// The pretty external form: the same tree, two-space indentation, one item
// per line, a space after each key.
// ---------------------------------------------------------------------------
/// A line break followed by `d` levels of two-space indentation.
pub open spec fn nl_ind(d: nat) -> Seq<char>
    decreases d,
{
    if d == 0 {
        seq!['\n']
    } else {
        nl_ind((d - 1) as nat) + seq![' ', ' ']
    }
}

/// Strings of a tag list, one per line, at depth `d`.
pub open spec fn pretty_str_items(l: Seq<Seq<char>>, d: nat) -> Seq<char>
    decreases l.len(),
{
    if l.len() == 0 {
        Seq::empty()
    } else if l.len() == 1 {
        ser_string(l[0])
    } else {
        ser_string(l[0]) + seq![','] + nl_ind(d) + pretty_str_items(l.skip(1), d)
    }
}

/// A bracketed tag list at depth `d`.
pub open spec fn pretty_str_arr(l: Seq<Seq<char>>, d: nat) -> Seq<char> {
    if l.len() == 0 {
        seq!['[', ']']
    } else {
        seq!['['] + nl_ind(d + 1) + pretty_str_items(l, d + 1) + nl_ind(d) + seq![']']
    }
}

/// One goal record at depth `d`.
pub open spec fn pretty_goal(g: GoalModel, d: nat) -> Seq<char> {
    seq!['{'] + nl_ind(d + 1) + seq!['"', 'n', 'a', 'm', 'e', '"', ':', ' '] + ser_string(g.name)
        + seq![','] + nl_ind(d + 1) + seq!['"', 't', 'y', 'p', 'e', 's', '"', ':', ' ']
        + pretty_str_arr(g.types, d + 1) + nl_ind(d) + seq!['}']
}

/// Goal records of one tier, one per line, at depth `d`.
pub open spec fn pretty_goal_items(l: Seq<GoalModel>, d: nat) -> Seq<char>
    decreases l.len(),
{
    if l.len() == 0 {
        Seq::empty()
    } else if l.len() == 1 {
        pretty_goal(l[0], d)
    } else {
        pretty_goal(l[0], d) + seq![','] + nl_ind(d) + pretty_goal_items(l.skip(1), d)
    }
}

/// A bracketed tier at depth `d`.
pub open spec fn pretty_goal_arr(p: Seq<GoalModel>, d: nat) -> Seq<char> {
    if p.len() == 0 {
        seq!['[', ']']
    } else {
        seq!['['] + nl_ind(d + 1) + pretty_goal_items(p, d + 1) + nl_ind(d) + seq![']']
    }
}

/// Tiers of the catalog, one per line, at depth `d`.
pub open spec fn pretty_tier_items(cat: Seq<Seq<GoalModel>>, d: nat) -> Seq<char>
    decreases cat.len(),
{
    if cat.len() == 0 {
        Seq::empty()
    } else if cat.len() == 1 {
        pretty_goal_arr(cat[0], d)
    } else {
        pretty_goal_arr(cat[0], d) + seq![','] + nl_ind(d) + pretty_tier_items(cat.skip(1), d)
    }
}

/// The whole catalog in its pretty external form.
pub open spec fn pretty_template(cat: Seq<Seq<GoalModel>>) -> Seq<char> {
    if cat.len() == 0 {
        seq!['[', ']']
    } else {
        seq!['['] + nl_ind(1) + pretty_tier_items(cat, 1) + nl_ind(0) + seq![']']
    }
}

// ---------------------------------------------------------------------------
// Reading.
// ---------------------------------------------------------------------------
/// All the characters of `s`, in order.
fn chars_of(s: &str) -> (r: Vec<char>)
    ensures
        r@ == s@,
{
    let n = s.unicode_len();
    let mut out: Vec<char> = Vec::new();
    let mut i: usize = 0;
    while i < n
        invariant
            i <= n == s@.len(),
            out@.len() == i,
            forall|k: int| 0 <= k < i ==> out@[k] == s@[k],
        decreases n - i,
    {
        out.push(s.get_char(i));
        i += 1;
    }
    proof {
        assert(out@ =~= s@);
    }
    out
}

/// Advance `pos` past whitespace.
fn skip_ws_at(s: &Vec<char>, pos: usize) -> (r: usize)
    requires
        pos <= s@.len(),
    ensures
        pos <= r <= s@.len(),
        s@.skip(r as int) == skip_ws(s@.skip(pos as int)),
    decreases s@.len() - pos,
{
    if pos < s.len() {
        let c = s[pos];
        if c == ' ' || c == '\t' || c == '\n' || c == '\r' {
            let r = skip_ws_at(s, pos + 1);
            proof {
                assert(s@.skip(pos as int).skip(1) =~= s@.skip(pos as int + 1));
                assert(s@.skip(pos as int)[0] == c);
            }
            return r;
        }
    }
    proof {
        assert(skip_ws(s@.skip(pos as int)) == s@.skip(pos as int));
    }
    pos
}

/// The resolved character of one escape letter.
fn unescape(c: char) -> (r: Option<char>)
    ensures
        r == unesc_char(c),
{
    if c == '"' {
        Some('"')
    } else if c == '\\' {
        Some('\\')
    } else if c == '/' {
        Some('/')
    } else if c == 'n' {
        Some('\n')
    } else if c == 'r' {
        Some('\r')
    } else if c == 't' {
        Some('\t')
    } else if c == 'b' {
        Some('\u{8}')
    } else if c == 'f' {
        Some('\u{c}')
    } else {
        None
    }
}

/// Read a quoted string's body starting at `pos` (just past the opening
/// quote), appending the resolved characters to `out`; returns the position
/// just past the closing quote.
fn parse_string_body_at(s: &Vec<char>, pos: usize, out: &mut Vec<char>) -> (r: Option<usize>)
    requires
        pos <= s@.len(),
    ensures
        match r {
            Some(np) => {
                &&& np <= s@.len()
                &&& parse_string_body(s@.skip(pos as int)) == Some(
                    (final(out)@.skip(old(out)@.len() as int), s@.skip(np as int)),
                )
                &&& final(out)@.len() >= old(out)@.len()
                &&& final(out)@.subrange(0, old(out)@.len() as int) == old(out)@
            },
            None => parse_string_body(s@.skip(pos as int)) is None,
        },
    decreases s@.len() - pos,
{
    if pos >= s.len() {
        return None;
    }
    let c = s[pos];
    proof {
        assert(s@.skip(pos as int)[0] == c);
    }
    if c == '"' {
        proof {
            assert(s@.skip(pos as int).skip(1) =~= s@.skip(pos as int + 1));
            assert(out@.skip(out@.len() as int) =~= Seq::<char>::empty());
        }
        return Some(pos + 1);
    }
    if c == '\\' {
        if pos + 1 >= s.len() {
            proof {
                assert(s@.skip(pos as int).len() < 2);
            }
            return None;
        }
        let c2 = s[pos + 1];
        proof {
            assert(s@.skip(pos as int)[1] == c2);
            assert(s@.skip(pos as int).len() >= 2);
        }
        match unescape(c2) {
            None => {
                return None;
            },
            Some(u) => {
                out.push(u);
                let ghost mid = out@;
                let r = parse_string_body_at(s, pos + 2, out);
                proof {
                    assert(s@.skip(pos as int).skip(2) =~= s@.skip(pos as int + 2));
                }
                match r {
                    None => {
                        return None;
                    },
                    Some(np) => {
                        proof {
                            let oldlen = old(out)@.len() as int;
                            assert(final(out)@.subrange(0, mid.len() as int) == mid);
                            assert(mid[oldlen] == u);
                            assert(final(out)@[oldlen] == final(out)@.subrange(
                                0,
                                mid.len() as int,
                            )[oldlen]);
                            assert(final(out)@.skip(oldlen) =~= seq![u]
                                + final(out)@.skip(mid.len() as int));
                            assert(final(out)@.subrange(0, oldlen) =~= old(out)@);
                        }
                        return Some(np);
                    },
                }
            },
        }
    }
    out.push(c);
    let ghost mid = out@;
    let r = parse_string_body_at(s, pos + 1, out);
    proof {
        assert(s@.skip(pos as int).skip(1) =~= s@.skip(pos as int + 1));
    }
    match r {
        None => None,
        Some(np) => {
            proof {
                let oldlen = old(out)@.len() as int;
                assert(final(out)@.subrange(0, mid.len() as int) == mid);
                assert(mid[oldlen] == c);
                assert(final(out)@[oldlen] == final(out)@.subrange(0, mid.len() as int)[oldlen]);
                assert(final(out)@.skip(oldlen) =~= seq![c] + final(out)@.skip(mid.len() as int));
                assert(final(out)@.subrange(0, oldlen) =~= old(out)@);
            }
            Some(np)
        },
    }
}

/// Read a quoted string starting at `pos`.
fn parse_string_at(s: &Vec<char>, pos: usize) -> (r: Option<(String, usize)>)
    requires
        pos <= s@.len(),
    ensures
        match r {
            Some(p) => {
                &&& p.1 <= s@.len()
                &&& parse_string(s@.skip(pos as int)) == Some((p.0@, s@.skip(p.1 as int)))
            },
            None => parse_string(s@.skip(pos as int)) is None,
        },
{
    if pos >= s.len() {
        return None;
    }
    if s[pos] != '"' {
        proof {
            assert(s@.skip(pos as int)[0] == s@[pos as int]);
        }
        return None;
    }
    let mut out: Vec<char> = Vec::new();
    proof {
        assert(s@.skip(pos as int)[0] == '"');
        assert(s@.skip(pos as int).skip(1) =~= s@.skip(pos as int + 1));
    }
    match parse_string_body_at(s, pos + 1, &mut out) {
        None => None,
        Some(np) => {
            proof {
                assert(out@.skip(0) =~= out@);
            }
            Some((string_from_chars(&out), np))
        },
    }
}

/// Read one or more comma-separated strings and the closing bracket.
fn parse_str_items_at(s: &Vec<char>, pos: usize) -> (r: Option<(Vec<String>, usize)>)
    requires
        pos <= s@.len(),
    ensures
        match r {
            Some(p) => {
                &&& p.1 <= s@.len()
                &&& parse_str_items(s@.skip(pos as int)) == Some(
                    (p.0.deep_view(), s@.skip(p.1 as int)),
                )
            },
            None => parse_str_items(s@.skip(pos as int)) is None,
        },
    decreases s@.len() - pos,
{
    let p1 = skip_ws_at(s, pos);
    match parse_string_at(s, p1) {
        None => None,
        Some((st, p2)) => {
            let p3 = skip_ws_at(s, p2);
            if p3 >= s.len() {
                None
            } else {
                let c = s[p3];
                proof {
                    assert(s@.skip(p3 as int)[0] == c);
                }
                if c == ']' {
                    let mut v: Vec<String> = Vec::new();
                    v.push(st);
                    proof {
                        assert(s@.skip(p3 as int).skip(1) =~= s@.skip(p3 as int + 1));
                        assert(v.deep_view() =~= seq![v@[0]@]);
                    }
                    Some((v, p3 + 1))
                } else if c == ',' {
                    if p3 + 1 > pos {
                        proof {
                            assert(s@.skip(p3 as int).skip(1) =~= s@.skip(p3 as int + 1));
                        }
                        match parse_str_items_at(s, p3 + 1) {
                            None => None,
                            Some((mut v, np)) => {
                                let ghost tail = v.deep_view();
                                v.insert(0, st);
                                proof {
                                    assert(v.deep_view() =~= seq![st@] + tail);
                                }
                                Some((v, np))
                            },
                        }
                    } else {
                        None
                    }
                } else {
                    None
                }
            }
        },
    }
}

/// Read a bracketed, possibly empty list of strings.
fn parse_str_list_at(s: &Vec<char>, pos: usize) -> (r: Option<(Vec<String>, usize)>)
    requires
        pos <= s@.len(),
    ensures
        match r {
            Some(p) => {
                &&& p.1 <= s@.len()
                &&& parse_str_list(s@.skip(pos as int)) == Some(
                    (p.0.deep_view(), s@.skip(p.1 as int)),
                )
            },
            None => parse_str_list(s@.skip(pos as int)) is None,
        },
{
    let t = skip_ws_at(s, pos);
    if t >= s.len() {
        return None;
    }
    if s[t] != '[' {
        proof {
            assert(s@.skip(t as int)[0] == s@[t as int]);
        }
        return None;
    }
    proof {
        assert(s@.skip(t as int)[0] == '[');
        assert(s@.skip(t as int).skip(1) =~= s@.skip(t as int + 1));
    }
    let u = skip_ws_at(s, t + 1);
    if u < s.len() && s[u] == ']' {
        proof {
            assert(s@.skip(u as int)[0] == ']');
            assert(s@.skip(u as int).skip(1) =~= s@.skip(u as int + 1));
        }
        let empty: Vec<String> = Vec::new();
        proof {
            assert(empty.deep_view() =~= Seq::<Seq<char>>::empty());
        }
        Some((empty, u + 1))
    } else {
        proof {
            if u < s.len() {
                assert(s@.skip(u as int)[0] == s@[u as int]);
            }
        }
        parse_str_items_at(s, t + 1)
    }
}

/// Expect the quoted key `name` at `pos`.
fn expect_key_name(s: &Vec<char>, pos: usize) -> (r: Option<usize>)
    requires
        pos <= s@.len(),
    ensures
        match r {
            Some(np) => {
                &&& np <= s@.len()
                &&& expect_lit(s@.skip(pos as int), seq!['"', 'n', 'a', 'm', 'e', '"']) == Some(
                    s@.skip(np as int),
                )
            },
            None => expect_lit(s@.skip(pos as int), seq!['"', 'n', 'a', 'm', 'e', '"']) is None,
        },
{
    proof {
        if s@.skip(pos as int).len() >= 6 {
            assert(s@.skip(pos as int).subrange(0, 6)[0] == s@[pos as int]);
            assert(s@.skip(pos as int).subrange(0, 6)[1] == s@[pos as int + 1]);
            assert(s@.skip(pos as int).subrange(0, 6)[2] == s@[pos as int + 2]);
            assert(s@.skip(pos as int).subrange(0, 6)[3] == s@[pos as int + 3]);
            assert(s@.skip(pos as int).subrange(0, 6)[4] == s@[pos as int + 4]);
            assert(s@.skip(pos as int).subrange(0, 6)[5] == s@[pos as int + 5]);
        }
    }
    if s.len() >= 6 && pos <= s.len() - 6 && s[pos] == '"' && s[pos + 1] == 'n' && s[pos + 2]
        == 'a' && s[pos + 3] == 'm' && s[pos + 4] == 'e' && s[pos + 5] == '"' {
        proof {
            assert(s@.skip(pos as int).subrange(0, 6) =~= seq!['"', 'n', 'a', 'm', 'e', '"']);
            assert(s@.skip(pos as int).skip(6) =~= s@.skip(pos as int + 6));
        }
        Some(pos + 6)
    } else {
        proof {
            if s@.skip(pos as int).len() >= 6 {
                assert(s@.skip(pos as int).subrange(0, 6) != seq!['"', 'n', 'a', 'm', 'e', '"']);
            }
        }
        None
    }
}

/// Expect the quoted key `types` at `pos`.
fn expect_key_types(s: &Vec<char>, pos: usize) -> (r: Option<usize>)
    requires
        pos <= s@.len(),
    ensures
        match r {
            Some(np) => {
                &&& np <= s@.len()
                &&& expect_lit(s@.skip(pos as int), seq!['"', 't', 'y', 'p', 'e', 's', '"'])
                    == Some(s@.skip(np as int))
            },
            None => expect_lit(s@.skip(pos as int), seq!['"', 't', 'y', 'p', 'e', 's', '"'])
                is None,
        },
{
    proof {
        if s@.skip(pos as int).len() >= 7 {
            assert(s@.skip(pos as int).subrange(0, 7)[0] == s@[pos as int]);
            assert(s@.skip(pos as int).subrange(0, 7)[1] == s@[pos as int + 1]);
            assert(s@.skip(pos as int).subrange(0, 7)[2] == s@[pos as int + 2]);
            assert(s@.skip(pos as int).subrange(0, 7)[3] == s@[pos as int + 3]);
            assert(s@.skip(pos as int).subrange(0, 7)[4] == s@[pos as int + 4]);
            assert(s@.skip(pos as int).subrange(0, 7)[5] == s@[pos as int + 5]);
            assert(s@.skip(pos as int).subrange(0, 7)[6] == s@[pos as int + 6]);
        }
    }
    if s.len() >= 7 && pos <= s.len() - 7 && s[pos] == '"' && s[pos + 1] == 't' && s[pos + 2]
        == 'y' && s[pos + 3] == 'p' && s[pos + 4] == 'e' && s[pos + 5] == 's' && s[pos + 6]
        == '"' {
        proof {
            assert(s@.skip(pos as int).subrange(0, 7) =~= seq!['"', 't', 'y', 'p', 'e', 's', '"']);
            assert(s@.skip(pos as int).skip(7) =~= s@.skip(pos as int + 7));
        }
        Some(pos + 7)
    } else {
        proof {
            if s@.skip(pos as int).len() >= 7 {
                assert(s@.skip(pos as int).subrange(0, 7) != seq![
                    '"',
                    't',
                    'y',
                    'p',
                    'e',
                    's',
                    '"',
                ]);
            }
        }
        None
    }
}

/// Read one goal record.
fn parse_goal_at(s: &Vec<char>, pos: usize) -> (r: Option<(Goal, usize)>)
    requires
        pos <= s@.len(),
    ensures
        match r {
            Some(p) => {
                &&& p.1 <= s@.len()
                &&& parse_goal(s@.skip(pos as int)) == Some((p.0@, s@.skip(p.1 as int)))
            },
            None => parse_goal(s@.skip(pos as int)) is None,
        },
{
    let t = skip_ws_at(s, pos);
    if t >= s.len() {
        return None;
    }
    if s[t] != '{' {
        proof {
            assert(s@.skip(t as int)[0] == s@[t as int]);
        }
        return None;
    }
    proof {
        assert(s@.skip(t as int)[0] == '{');
        assert(s@.skip(t as int).skip(1) =~= s@.skip(t as int + 1));
    }
    let k1 = skip_ws_at(s, t + 1);
    let r1 = match expect_key_name(s, k1) {
        None => {
            return None;
        },
        Some(r1) => r1,
    };
    let r2 = skip_ws_at(s, r1);
    if r2 >= s.len() {
        return None;
    }
    if s[r2] != ':' {
        proof {
            assert(s@.skip(r2 as int)[0] == s@[r2 as int]);
        }
        return None;
    }
    proof {
        assert(s@.skip(r2 as int)[0] == ':');
        assert(s@.skip(r2 as int).skip(1) =~= s@.skip(r2 as int + 1));
    }
    let k2 = skip_ws_at(s, r2 + 1);
    let (name, p2) = match parse_string_at(s, k2) {
        None => {
            return None;
        },
        Some(p) => p,
    };
    let r3 = skip_ws_at(s, p2);
    if r3 >= s.len() {
        return None;
    }
    if s[r3] != ',' {
        proof {
            assert(s@.skip(r3 as int)[0] == s@[r3 as int]);
        }
        return None;
    }
    proof {
        assert(s@.skip(r3 as int)[0] == ',');
        assert(s@.skip(r3 as int).skip(1) =~= s@.skip(r3 as int + 1));
    }
    let k3 = skip_ws_at(s, r3 + 1);
    let r4 = match expect_key_types(s, k3) {
        None => {
            return None;
        },
        Some(r4) => r4,
    };
    let r5 = skip_ws_at(s, r4);
    if r5 >= s.len() {
        return None;
    }
    if s[r5] != ':' {
        proof {
            assert(s@.skip(r5 as int)[0] == s@[r5 as int]);
        }
        return None;
    }
    proof {
        assert(s@.skip(r5 as int)[0] == ':');
        assert(s@.skip(r5 as int).skip(1) =~= s@.skip(r5 as int + 1));
    }
    let (types, p3) = match parse_str_list_at(s, r5 + 1) {
        None => {
            return None;
        },
        Some(p) => p,
    };
    let r6 = skip_ws_at(s, p3);
    if r6 >= s.len() {
        return None;
    }
    if s[r6] != '}' {
        proof {
            assert(s@.skip(r6 as int)[0] == s@[r6 as int]);
        }
        return None;
    }
    proof {
        assert(s@.skip(r6 as int)[0] == '}');
        assert(s@.skip(r6 as int).skip(1) =~= s@.skip(r6 as int + 1));
    }
    let g = Goal { name, types };
    Some((g, r6 + 1))
}

/// Read one or more comma-separated goals and the closing bracket.
fn parse_goal_items_at(s: &Vec<char>, pos: usize) -> (r: Option<(Vec<Goal>, usize)>)
    requires
        pos <= s@.len(),
    ensures
        match r {
            Some(p) => {
                &&& p.1 <= s@.len()
                &&& parse_goal_items(s@.skip(pos as int)) == Some(
                    (p.0.deep_view(), s@.skip(p.1 as int)),
                )
            },
            None => parse_goal_items(s@.skip(pos as int)) is None,
        },
    decreases s@.len() - pos,
{
    match parse_goal_at(s, pos) {
        None => None,
        Some((g, p2)) => {
            let p3 = skip_ws_at(s, p2);
            if p3 >= s.len() {
                None
            } else {
                let c = s[p3];
                proof {
                    assert(s@.skip(p3 as int)[0] == c);
                }
                if c == ']' {
                    let mut v: Vec<Goal> = Vec::new();
                    v.push(g);
                    proof {
                        assert(s@.skip(p3 as int).skip(1) =~= s@.skip(p3 as int + 1));
                        assert(v.deep_view() =~= seq![v@[0]@]);
                    }
                    Some((v, p3 + 1))
                } else if c == ',' {
                    if p3 + 1 > pos {
                        proof {
                            assert(s@.skip(p3 as int).skip(1) =~= s@.skip(p3 as int + 1));
                        }
                        match parse_goal_items_at(s, p3 + 1) {
                            None => None,
                            Some((mut v, np)) => {
                                let ghost tail = v.deep_view();
                                v.insert(0, g);
                                proof {
                                    assert(v.deep_view() =~= seq![v@[0]@] + tail);
                                }
                                Some((v, np))
                            },
                        }
                    } else {
                        None
                    }
                } else {
                    None
                }
            }
        },
    }
}

/// Read a bracketed, possibly empty tier of goals.
fn parse_tier_at(s: &Vec<char>, pos: usize) -> (r: Option<(Vec<Goal>, usize)>)
    requires
        pos <= s@.len(),
    ensures
        match r {
            Some(p) => {
                &&& p.1 <= s@.len()
                &&& parse_tier(s@.skip(pos as int)) == Some(
                    (p.0.deep_view(), s@.skip(p.1 as int)),
                )
            },
            None => parse_tier(s@.skip(pos as int)) is None,
        },
{
    let t = skip_ws_at(s, pos);
    if t >= s.len() {
        return None;
    }
    if s[t] != '[' {
        proof {
            assert(s@.skip(t as int)[0] == s@[t as int]);
        }
        return None;
    }
    proof {
        assert(s@.skip(t as int)[0] == '[');
        assert(s@.skip(t as int).skip(1) =~= s@.skip(t as int + 1));
    }
    let u = skip_ws_at(s, t + 1);
    if u < s.len() && s[u] == ']' {
        proof {
            assert(s@.skip(u as int)[0] == ']');
            assert(s@.skip(u as int).skip(1) =~= s@.skip(u as int + 1));
        }
        let empty: Vec<Goal> = Vec::new();
        proof {
            assert(empty.deep_view() =~= Seq::<GoalModel>::empty());
        }
        Some((empty, u + 1))
    } else {
        proof {
            if u < s.len() {
                assert(s@.skip(u as int)[0] == s@[u as int]);
            }
        }
        parse_goal_items_at(s, t + 1)
    }
}

/// Read one or more comma-separated tiers and the closing bracket.
fn parse_tier_items_at(s: &Vec<char>, pos: usize) -> (r: Option<(Vec<Vec<Goal>>, usize)>)
    requires
        pos <= s@.len(),
    ensures
        match r {
            Some(p) => {
                &&& p.1 <= s@.len()
                &&& parse_tier_items(s@.skip(pos as int)) == Some(
                    (p.0.deep_view(), s@.skip(p.1 as int)),
                )
            },
            None => parse_tier_items(s@.skip(pos as int)) is None,
        },
    decreases s@.len() - pos,
{
    match parse_tier_at(s, pos) {
        None => None,
        Some((tier, p2)) => {
            let p3 = skip_ws_at(s, p2);
            if p3 >= s.len() {
                None
            } else {
                let c = s[p3];
                proof {
                    assert(s@.skip(p3 as int)[0] == c);
                }
                if c == ']' {
                    let mut v: Vec<Vec<Goal>> = Vec::new();
                    v.push(tier);
                    proof {
                        assert(s@.skip(p3 as int).skip(1) =~= s@.skip(p3 as int + 1));
                        assert(v.deep_view() =~= seq![v@[0].deep_view()]);
                    }
                    Some((v, p3 + 1))
                } else if c == ',' {
                    if p3 + 1 > pos {
                        proof {
                            assert(s@.skip(p3 as int).skip(1) =~= s@.skip(p3 as int + 1));
                        }
                        match parse_tier_items_at(s, p3 + 1) {
                            None => None,
                            Some((mut v, np)) => {
                                let ghost tail = v.deep_view();
                                v.insert(0, tier);
                                proof {
                                    assert(v.deep_view() =~= seq![v@[0].deep_view()] + tail);
                                }
                                Some((v, np))
                            },
                        }
                    } else {
                        None
                    }
                } else {
                    None
                }
            }
        },
    }
}

/// Append a line break and `d` levels of indentation.
fn write_nl_ind(d: usize, out: &mut Vec<char>)
    ensures
        final(out)@ == old(out)@ + nl_ind(d as nat),
    decreases d,
{
    if d == 0 {
        out.push('\n');
        proof {
            assert(final(out)@ =~= old(out)@ + nl_ind(0));
        }
    } else {
        write_nl_ind(d - 1, out);
        out.push(' ');
        out.push(' ');
        proof {
            assert(final(out)@ =~= old(out)@ + nl_ind(d as nat));
        }
    }
}

/// Append the pretty tag strings of `l` from index `i` on, at depth `d`.
fn write_pretty_strs_from(l: &Vec<String>, i: usize, d: usize, out: &mut Vec<char>)
    requires
        i <= l@.len(),
    ensures
        final(out)@ == old(out)@ + pretty_str_items(l.deep_view().skip(i as int), d as nat),
    decreases l@.len() - i,
{
    let ghost dv = l.deep_view();
    if i < l.len() {
        write_string(l[i].as_str(), out);
        proof {
            assert(dv.skip(i as int)[0] == dv[i as int]);
            assert(dv[i as int] == l@[i as int]@);
        }
        if i + 1 < l.len() {
            out.push(',');
            write_nl_ind(d, out);
            write_pretty_strs_from(l, i + 1, d, out);
            proof {
                assert(dv.skip(i as int).skip(1) =~= dv.skip(i as int + 1));
                assert(final(out)@ =~= old(out)@ + pretty_str_items(dv.skip(i as int), d as nat));
            }
        } else {
            proof {
                assert(dv.skip(i as int).len() == 1);
                assert(final(out)@ =~= old(out)@ + pretty_str_items(dv.skip(i as int), d as nat));
            }
        }
    } else {
        proof {
            assert(dv.skip(i as int) =~= Seq::<Seq<char>>::empty());
            assert(final(out)@ =~= old(out)@ + pretty_str_items(dv.skip(i as int), d as nat));
        }
    }
}

/// Append one pretty goal record at depth `d`.
#[verifier::rlimit(100)]
fn write_pretty_goal(g: &Goal, d: usize, out: &mut Vec<char>)
    requires
        d < 1000,
    ensures
        final(out)@ == old(out)@ + pretty_goal(g@, d as nat),
{
    let ghost p1 = seq!['{'] + nl_ind((d + 1) as nat) + seq!['"', 'n', 'a', 'm', 'e', '"', ':', ' '];
    out.push('{');
    write_nl_ind(d + 1, out);
    out.push('"');
    out.push('n');
    out.push('a');
    out.push('m');
    out.push('e');
    out.push('"');
    out.push(':');
    out.push(' ');
    proof {
        assert(out@ =~= old(out)@ + p1);
    }
    let ghost p2 = p1 + ser_string(g@.name) + seq![','] + nl_ind((d + 1) as nat) + seq![
        '"',
        't',
        'y',
        'p',
        'e',
        's',
        '"',
        ':',
        ' ',
    ];
    write_string(g.name.as_str(), out);
    out.push(',');
    write_nl_ind(d + 1, out);
    out.push('"');
    out.push('t');
    out.push('y');
    out.push('p');
    out.push('e');
    out.push('s');
    out.push('"');
    out.push(':');
    out.push(' ');
    proof {
        assert(out@ =~= old(out)@ + p2);
    }
    let ghost p3 = p2 + pretty_str_arr(g@.types, (d + 1) as nat);
    if g.types.len() == 0 {
        out.push('[');
        out.push(']');
        proof {
            assert(g.types.deep_view().len() == 0);
            assert(pretty_str_arr(g@.types, (d + 1) as nat) =~= seq!['[', ']']);
            assert(out@ =~= old(out)@ + p3);
        }
    } else {
        out.push('[');
        write_nl_ind(d + 2, out);
        write_pretty_strs_from(&g.types, 0, d + 2, out);
        write_nl_ind(d + 1, out);
        out.push(']');
        proof {
            assert(g.types.deep_view().skip(0) =~= g@.types);
            assert(out@ =~= old(out)@ + p3);
        }
    }
    write_nl_ind(d, out);
    out.push('}');
    proof {
        assert(out@ =~= old(out)@ + (p3 + nl_ind(d as nat) + seq!['}']));
        assert(p3 + nl_ind(d as nat) + seq!['}'] =~= pretty_goal(g@, d as nat));
    }
}

/// Append the pretty goals of `p` from index `i` on, at depth `d`.
fn write_pretty_goals_from(p: &Vec<Goal>, i: usize, d: usize, out: &mut Vec<char>)
    requires
        i <= p@.len(),
        d < 1000,
    ensures
        final(out)@ == old(out)@ + pretty_goal_items(p.deep_view().skip(i as int), d as nat),
    decreases p@.len() - i,
{
    let ghost dv = p.deep_view();
    if i < p.len() {
        write_pretty_goal(&p[i], d, out);
        proof {
            assert(dv.skip(i as int)[0] == dv[i as int]);
            assert(dv[i as int] == p@[i as int]@);
        }
        if i + 1 < p.len() {
            out.push(',');
            write_nl_ind(d, out);
            write_pretty_goals_from(p, i + 1, d, out);
            proof {
                assert(dv.skip(i as int).skip(1) =~= dv.skip(i as int + 1));
                assert(final(out)@ =~= old(out)@ + pretty_goal_items(dv.skip(i as int), d as nat));
            }
        } else {
            proof {
                assert(dv.skip(i as int).len() == 1);
                assert(final(out)@ =~= old(out)@ + pretty_goal_items(dv.skip(i as int), d as nat));
            }
        }
    } else {
        proof {
            assert(dv.skip(i as int) =~= Seq::<GoalModel>::empty());
            assert(final(out)@ =~= old(out)@ + pretty_goal_items(dv.skip(i as int), d as nat));
        }
    }
}

/// Append the pretty tiers of `cat` from index `i` on, at depth `d`.
#[verifier::rlimit(100)]
fn write_pretty_tiers_from(cat: &Vec<Vec<Goal>>, i: usize, d: usize, out: &mut Vec<char>)
    requires
        i <= cat@.len(),
        d < 998,
    ensures
        final(out)@ == old(out)@ + pretty_tier_items(cat.deep_view().skip(i as int), d as nat),
    decreases cat@.len() - i,
{
    let ghost dv = cat.deep_view();
    if i < cat.len() {
        let tier = &cat[i];
        if tier.len() == 0 {
            out.push('[');
            out.push(']');
            proof {
                assert(dv.skip(i as int)[0] == dv[i as int]);
                assert(dv[i as int].len() == 0);
                assert(pretty_goal_arr(dv[i as int], d as nat) =~= seq!['[', ']']);
            }
        } else {
            out.push('[');
            write_nl_ind(d + 1, out);
            write_pretty_goals_from(tier, 0, d + 1, out);
            write_nl_ind(d, out);
            out.push(']');
            proof {
                assert(dv.skip(i as int)[0] == dv[i as int]);
                assert(cat@[i as int].deep_view().skip(0) =~= dv[i as int]);
                assert(out@ =~= old(out)@ + pretty_goal_arr(dv[i as int], d as nat));
            }
        }
        if i + 1 < cat.len() {
            out.push(',');
            write_nl_ind(d, out);
            write_pretty_tiers_from(cat, i + 1, d, out);
            proof {
                assert(dv.skip(i as int).skip(1) =~= dv.skip(i as int + 1));
                assert(final(out)@ =~= old(out)@ + pretty_tier_items(dv.skip(i as int), d as nat));
            }
        } else {
            proof {
                assert(dv.skip(i as int).len() == 1);
                assert(final(out)@ =~= old(out)@ + pretty_tier_items(dv.skip(i as int), d as nat));
            }
        }
    } else {
        proof {
            assert(dv.skip(i as int) =~= Seq::<Seq<GoalModel>>::empty());
            assert(final(out)@ =~= old(out)@ + pretty_tier_items(dv.skip(i as int), d as nat));
        }
    }
}

impl Template {
    /// The catalog in its pretty external form: two-space indentation, one
    /// tier, goal and tag per line.
    pub fn to_json_string_pretty(&self) -> (r: String)
        ensures
            r@ == pretty_template(self@),
    {
        let mut out: Vec<char> = Vec::new();
        if self.0.len() == 0 {
            out.push('[');
            out.push(']');
            proof {
                assert(self@.len() == 0);
                assert(out@ =~= pretty_template(self@));
            }
        } else {
            out.push('[');
            write_nl_ind(1, &mut out);
            write_pretty_tiers_from(&self.0, 0, 1, &mut out);
            write_nl_ind(0, &mut out);
            out.push(']');
            proof {
                assert(self.0.deep_view().skip(0) =~= self@);
                assert(out@ =~= pretty_template(self@));
            }
        }
        string_from_chars(&out)
    }
}

impl Template {
    /// Rebuild a catalog from its external structured form: a bracketed list
    /// of tiers, each a bracketed list of `{"name": ..., "types": [...]}`
    /// records, with nothing but whitespace after it. Succeeds exactly on
    /// inputs the external-form parser accepts; anything else is a
    /// malformed catalog.
    pub fn from_json_str(json: &str) -> (r: Result<Template, BingoError>)
        ensures
            match r {
                Ok(t) => parse_template(json@) == Some(t@),
                Err(e) => {
                    &&& e == BingoError::MalformedCatalog
                    &&& parse_template(json@) is None
                },
            },
    {
        let s = chars_of(json);
        proof {
            assert(s@.skip(0) =~= json@);
        }
        let t = skip_ws_at(&s, 0);
        if t >= s.len() {
            return Err(BingoError::MalformedCatalog);
        }
        if s[t] != '[' {
            proof {
                assert(s@.skip(t as int)[0] == s@[t as int]);
            }
            return Err(BingoError::MalformedCatalog);
        }
        proof {
            assert(s@.skip(t as int)[0] == '[');
            assert(s@.skip(t as int).skip(1) =~= s@.skip(t as int + 1));
        }
        let u = skip_ws_at(&s, t + 1);
        let body: Option<(Vec<Vec<Goal>>, usize)>;
        if u < s.len() && s[u] == ']' {
            proof {
                assert(s@.skip(u as int)[0] == ']');
                assert(s@.skip(u as int).skip(1) =~= s@.skip(u as int + 1));
            }
            let empty: Vec<Vec<Goal>> = Vec::new();
            proof {
                assert(empty.deep_view() =~= Seq::<Seq<GoalModel>>::empty());
            }
            body = Some((empty, u + 1));
        } else {
            proof {
                if u < s.len() {
                    assert(s@.skip(u as int)[0] == s@[u as int]);
                }
            }
            body = parse_tier_items_at(&s, t + 1);
        }
        match body {
            None => Err(BingoError::MalformedCatalog),
            Some((tiers, p)) => {
                let e = skip_ws_at(&s, p);
                if e < s.len() {
                    proof {
                        assert(skip_ws(s@.skip(p as int)).len() > 0);
                    }
                    Err(BingoError::MalformedCatalog)
                } else {
                    proof {
                        assert(s@.skip(e as int) =~= Seq::<char>::empty());
                    }
                    Ok(Template(tiers))
                }
            },
        }
    }
}

// ---------------------------------------------------------------------------
// Round trip: reading back what was written yields the same catalog.
// ---------------------------------------------------------------------------
/// Reading a written string body (with its closing quote) recovers the
/// original characters and leaves exactly the trailing input.
proof fn lemma_rt_string_body(s: Seq<char>, rest: Seq<char>)
    ensures
        parse_string_body(ser_string_body(s) + seq!['"'] + rest) == Some((s, rest)),
    decreases s.len(),
{
    let input = ser_string_body(s) + seq!['"'] + rest;
    if s.len() == 0 {
        assert(input =~= seq!['"'] + rest);
        assert(input[0] == '"');
        assert(input.skip(1) =~= rest);
        assert(parse_string_body(input) == Some((Seq::<char>::empty(), rest)));
        assert(s =~= Seq::<char>::empty());
    } else {
        let c = s[0];
        let e = esc_char(c);
        assert(ser_string_body(s) == e + ser_string_body(s.skip(1)));
        lemma_rt_string_body(s.skip(1), rest);
        if e.len() == 2 {
            assert(input[0] == '\\');
            assert(input[1] == e[1]);
            assert(unesc_char(e[1]) == Some(c));
            assert(input.skip(2) =~= ser_string_body(s.skip(1)) + seq!['"'] + rest);
            assert(input.len() >= 2);
            assert(parse_string_body(input) == Some((seq![c] + s.skip(1), rest)));
            assert(seq![c] + s.skip(1) =~= s);
        } else {
            assert(e == seq![c]);
            assert(c != '"' && c != '\\');
            assert(input[0] == c);
            assert(input.skip(1) =~= ser_string_body(s.skip(1)) + seq!['"'] + rest);
            assert(parse_string_body(input) == Some((seq![c] + s.skip(1), rest)));
            assert(seq![c] + s.skip(1) =~= s);
        }
    }
}

/// Reading a written quoted string recovers it exactly.
proof fn lemma_rt_string(s: Seq<char>, rest: Seq<char>)
    ensures
        parse_string(ser_string(s) + rest) == Some((s, rest)),
{
    let input = ser_string(s) + rest;
    assert(input[0] == '"');
    assert(input.skip(1) =~= ser_string_body(s) + seq!['"'] + rest);
    lemma_rt_string_body(s, rest);
}

/// Reading written string items (with the closing bracket) recovers them.
proof fn lemma_rt_str_items(l: Seq<Seq<char>>, rest: Seq<char>)
    requires
        l.len() >= 1,
    ensures
        parse_str_items(ser_str_list(l) + seq![']'] + rest) == Some((l, rest)),
    decreases l.len(),
{
    let input = ser_str_list(l) + seq![']'] + rest;
    assert(input[0] == '"');
    assert(skip_ws(input) == input);
    if l.len() == 1 {
        assert(input =~= ser_string(l[0]) + (seq![']'] + rest));
        lemma_rt_string(l[0], seq![']'] + rest);
        let r = seq![']'] + rest;
        assert(skip_ws(r) == r);
        assert(r[0] == ']');
        assert(r.skip(1) =~= rest);
        assert(parse_str_items(input) == Some((seq![l[0]], rest)));
        assert(seq![l[0]] =~= l);
    } else {
        let tail = seq![','] + ser_str_list(l.skip(1)) + seq![']'] + rest;
        assert(input =~= ser_string(l[0]) + tail);
        lemma_rt_string(l[0], tail);
        assert(skip_ws(tail) == tail);
        assert(tail[0] == ',');
        assert(tail.skip(1) =~= ser_str_list(l.skip(1)) + seq![']'] + rest);
        assert(ser_string(l[0]).len() >= 2);
        assert(tail.skip(1).len() < input.len());
        lemma_rt_str_items(l.skip(1), rest);
        assert(parse_str_items(input) == Some((seq![l[0]] + l.skip(1), rest)));
        assert(seq![l[0]] + l.skip(1) =~= l);
    }
}

/// Reading a written bracketed string list recovers it, empty or not.
proof fn lemma_rt_str_list(l: Seq<Seq<char>>, rest: Seq<char>)
    ensures
        parse_str_list(seq!['['] + ser_str_list(l) + seq![']'] + rest) == Some((l, rest)),
{
    let input = seq!['['] + ser_str_list(l) + seq![']'] + rest;
    assert(input[0] == '[');
    assert(skip_ws(input) == input);
    let t1 = input.skip(1);
    assert(t1 =~= ser_str_list(l) + seq![']'] + rest);
    if l.len() == 0 {
        assert(t1 =~= seq![']'] + rest);
        assert(skip_ws(t1) == t1);
        assert(t1[0] == ']');
        assert(t1.skip(1) =~= rest);
    } else {
        assert(t1[0] == '"');
        assert(skip_ws(t1) == t1);
        lemma_rt_str_items(l, rest);
    }
}

/// Reading a written goal record recovers it exactly.
#[verifier::rlimit(60)]
proof fn lemma_rt_goal(g: GoalModel, rest: Seq<char>)
    ensures
        parse_goal(ser_goal(g) + rest) == Some((g, rest)),
{
    let input = ser_goal(g) + rest;
    assert(input[0] == '{');
    assert(skip_ws(input) == input);
    let t1 = input.skip(1);
    let key1 = seq!['"', 'n', 'a', 'm', 'e', '"'];
    let after_name_key = seq![':'] + ser_string(g.name) + seq![
        ',',
        '"',
        't',
        'y',
        'p',
        'e',
        's',
        '"',
        ':',
        '[',
    ] + ser_str_list(g.types) + seq![']', '}'] + rest;
    assert(t1 =~= key1 + after_name_key);
    assert(t1[0] == '"');
    assert(skip_ws(t1) == t1);
    assert(t1.subrange(0, 6) =~= key1);
    assert(t1.len() >= 6);
    assert(expect_lit(t1, key1) == Some(t1.skip(6)));
    let r1 = t1.skip(6);
    assert(r1 =~= after_name_key);
    assert(r1[0] == ':');
    assert(skip_ws(r1) == r1);
    let r2 = r1.skip(1);
    let after_colon = ser_string(g.name) + (seq![',', '"', 't', 'y', 'p', 'e', 's', '"', ':', '[']
        + ser_str_list(g.types) + seq![']', '}'] + rest);
    assert(r2 =~= after_colon);
    assert(r2[0] == '"');
    assert(skip_ws(r2) == r2);
    let mid = seq![',', '"', 't', 'y', 'p', 'e', 's', '"', ':', '['] + ser_str_list(g.types)
        + seq![']', '}'] + rest;
    assert(r2 =~= ser_string(g.name) + mid);
    lemma_rt_string(g.name, mid);
    assert(parse_string(r2) == Some((g.name, mid)));
    assert(mid[0] == ',');
    assert(skip_ws(mid) == mid);
    let r3 = mid.skip(1);
    let key2 = seq!['"', 't', 'y', 'p', 'e', 's', '"'];
    let after_types_key = seq![':', '['] + ser_str_list(g.types) + seq![']', '}'] + rest;
    assert(r3 =~= key2 + after_types_key);
    assert(r3[0] == '"');
    assert(skip_ws(r3) == r3);
    assert(r3.subrange(0, 7) =~= key2);
    assert(r3.len() >= 7);
    assert(expect_lit(r3, key2) == Some(r3.skip(7)));
    let r4 = r3.skip(7);
    assert(r4 =~= after_types_key);
    assert(r4[0] == ':');
    assert(skip_ws(r4) == r4);
    let r5 = r4.skip(1);
    assert(r5 =~= seq!['['] + ser_str_list(g.types) + seq![']'] + (seq!['}'] + rest));
    lemma_rt_str_list(g.types, seq!['}'] + rest);
    assert(parse_str_list(r5) == Some((g.types, seq!['}'] + rest)));
    let r6 = seq!['}'] + rest;
    assert(r6[0] == '}');
    assert(skip_ws(r6) == r6);
    assert(r6.skip(1) =~= rest);
    assert(parse_goal(input) == Some((GoalModel { name: g.name, types: g.types }, rest)));
    assert(GoalModel { name: g.name, types: g.types } == g);
}

/// Reading written goal items (with the closing bracket) recovers them.
#[verifier::rlimit(100)]
proof fn lemma_rt_goal_items(l: Seq<GoalModel>, rest: Seq<char>)
    requires
        l.len() >= 1,
    ensures
        parse_goal_items(ser_goal_list(l) + seq![']'] + rest) == Some((l, rest)),
    decreases l.len(),
{
    let input = ser_goal_list(l) + seq![']'] + rest;
    if l.len() == 1 {
        assert(input =~= ser_goal(l[0]) + (seq![']'] + rest));
        lemma_rt_goal(l[0], seq![']'] + rest);
        let r = seq![']'] + rest;
        assert(skip_ws(r) == r);
        assert(r[0] == ']');
        assert(r.skip(1) =~= rest);
        assert(parse_goal_items(input) == Some((seq![l[0]], rest)));
        assert(seq![l[0]] =~= l);
    } else {
        let tail = seq![','] + ser_goal_list(l.skip(1)) + seq![']'] + rest;
        assert(input =~= ser_goal(l[0]) + tail);
        lemma_rt_goal(l[0], tail);
        assert(skip_ws(tail) == tail);
        assert(tail[0] == ',');
        assert(tail.skip(1) =~= ser_goal_list(l.skip(1)) + seq![']'] + rest);
        assert(ser_goal(l[0]).len() >= 2);
        assert(tail.skip(1).len() < input.len());
        lemma_rt_goal_items(l.skip(1), rest);
        assert(parse_goal_items(input) == Some((seq![l[0]] + l.skip(1), rest)));
        assert(seq![l[0]] + l.skip(1) =~= l);
    }
}

/// Reading a written tier recovers it, empty or not.
proof fn lemma_rt_tier(p: Seq<GoalModel>, rest: Seq<char>)
    ensures
        parse_tier(ser_tier(p) + rest) == Some((p, rest)),
{
    let input = ser_tier(p) + rest;
    assert(input[0] == '[');
    assert(skip_ws(input) == input);
    let t1 = input.skip(1);
    assert(t1 =~= ser_goal_list(p) + seq![']'] + rest);
    if p.len() == 0 {
        assert(t1 =~= seq![']'] + rest);
        assert(skip_ws(t1) == t1);
        assert(t1[0] == ']');
        assert(t1.skip(1) =~= rest);
    } else {
        assert(t1[0] == '{');
        assert(skip_ws(t1) == t1);
        lemma_rt_goal_items(p, rest);
    }
}

/// Reading written tier items (with the closing bracket) recovers them.
proof fn lemma_rt_tier_items(cat: Seq<Seq<GoalModel>>, rest: Seq<char>)
    requires
        cat.len() >= 1,
    ensures
        parse_tier_items(ser_tier_list(cat) + seq![']'] + rest) == Some((cat, rest)),
    decreases cat.len(),
{
    let input = ser_tier_list(cat) + seq![']'] + rest;
    if cat.len() == 1 {
        assert(input =~= ser_tier(cat[0]) + (seq![']'] + rest));
        lemma_rt_tier(cat[0], seq![']'] + rest);
        let r = seq![']'] + rest;
        assert(skip_ws(r) == r);
        assert(r[0] == ']');
        assert(r.skip(1) =~= rest);
        assert(parse_tier_items(input) == Some((seq![cat[0]], rest)));
        assert(seq![cat[0]] =~= cat);
    } else {
        let tail = seq![','] + ser_tier_list(cat.skip(1)) + seq![']'] + rest;
        assert(input =~= ser_tier(cat[0]) + tail);
        lemma_rt_tier(cat[0], tail);
        assert(skip_ws(tail) == tail);
        assert(tail[0] == ',');
        assert(tail.skip(1) =~= ser_tier_list(cat.skip(1)) + seq![']'] + rest);
        assert(ser_tier(cat[0]).len() >= 2);
        assert(tail.skip(1).len() < input.len());
        lemma_rt_tier_items(cat.skip(1), rest);
        assert(parse_tier_items(input) == Some((seq![cat[0]] + cat.skip(1), rest)));
        assert(seq![cat[0]] + cat.skip(1) =~= cat);
    }
}

/// Catalog round trip: writing any catalog to its external structured form
/// and reading it back yields the same catalog, field for field.
pub proof fn lemma_catalog_round_trip(cat: Seq<Seq<GoalModel>>)
    ensures
        parse_template(ser_template(cat)) == Some(cat),
{
    let input = ser_template(cat);
    assert(input[0] == '[');
    assert(skip_ws(input) == input);
    let t1 = input.skip(1);
    assert(t1 =~= ser_tier_list(cat) + seq![']'] + Seq::<char>::empty());
    if cat.len() == 0 {
        assert(t1 =~= seq![']'] + Seq::<char>::empty());
        assert(skip_ws(t1) == t1);
        assert(t1[0] == ']');
        assert(t1.skip(1) =~= Seq::<char>::empty());
        assert(skip_ws(Seq::<char>::empty()).len() == 0);
        assert(cat =~= Seq::<Seq<GoalModel>>::empty());
    } else {
        assert(t1[0] == '[');
        assert(skip_ws(t1) == t1);
        lemma_rt_tier_items(cat, Seq::<char>::empty());
        assert(parse_tier_items(t1) == Some((cat, Seq::<char>::empty())));
        assert(skip_ws(Seq::<char>::empty()).len() == 0);
        assert(ser_tier_list(cat).len() >= 2);
        assert(skip_ws(t1)[0] != ']' || ser_tier_list(cat)[0] == '[');
    }
}

} // verus!
