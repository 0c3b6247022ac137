//! The data payload model: a JSON-like value, its mathematical model, and
//! the canonical text encoding that the persistence contract is stated over.
use vstd::prelude::*;

verus! {

broadcast use vstd::seq::group_seq_axioms, vstd::std_specs::vec::group_vec_axioms;

/// A JSON-like data value: the payload carried by a machine instance for its
/// shared data and its per-state data.
#[derive(Debug)]
pub enum JsonValue {
    Null,
    Bool(bool),
    Int(i64),
    Str(String),
    Arr(Vec<JsonValue>),
    Obj(Vec<(String, JsonValue)>),
}

/// The mathematical model of a `JsonValue`.
pub ghost enum JsonValueV {
    Null,
    Bool(bool),
    Int(int),
    Str(Seq<char>),
    Arr(Seq<JsonValueV>),
    Obj(Seq<(Seq<char>, JsonValueV)>),
}

/// Model of a sequence of values, element by element.
pub open spec fn view_of_elems(vs: Seq<JsonValue>) -> Seq<JsonValueV>
    decreases vs, 0int,
{
    if vs.len() == 0 {
        Seq::empty()
    } else {
        seq![view_of_val(vs[0])] + view_of_elems(vs.drop_first())
    }
}

/// Model of a sequence of key/value pairs, pair by pair.
pub open spec fn view_of_pairs(ps: Seq<(String, JsonValue)>) -> Seq<(Seq<char>, JsonValueV)>
    decreases ps, 0int,
{
    if ps.len() == 0 {
        Seq::empty()
    } else {
        seq![(ps[0].0@, view_of_val(ps[0].1))] + view_of_pairs(ps.drop_first())
    }
}

/// Model of a single value.
pub open spec fn view_of_val(v: JsonValue) -> JsonValueV
    decreases v, 1int,
{
    match v {
        JsonValue::Null => JsonValueV::Null,
        JsonValue::Bool(b) => JsonValueV::Bool(b),
        JsonValue::Int(n) => JsonValueV::Int(n as int),
        JsonValue::Str(s) => JsonValueV::Str(s@),
        JsonValue::Arr(vs) => JsonValueV::Arr(view_of_elems(vs@)),
        JsonValue::Obj(ps) => JsonValueV::Obj(view_of_pairs(ps@)),
    }
}

impl View for JsonValue {
    type V = JsonValueV;

    open spec fn view(&self) -> JsonValueV {
        view_of_val(*self)
    }
}

impl DeepView for JsonValue {
    type V = JsonValueV;

    open spec fn deep_view(&self) -> JsonValueV {
        view_of_val(*self)
    }
}

// ------------------------------------------------------------------
// The canonical text form. Values are rendered with no whitespace;
// strings escape only `"` and `\`; integers are decimal.
// ------------------------------------------------------------------

/// The character for a single decimal digit.
pub open spec fn digit_char(d: int) -> char {
    ((48 + d) as u8) as char
}

/// Decimal digits of a non-negative integer, most significant first.
pub open spec fn dec_digits(n: nat) -> Seq<char>
    decreases n,
{
    if n < 10 {
        seq![digit_char(n as int)]
    } else {
        dec_digits(n / 10).push(digit_char((n % 10) as int))
    }
}

/// Canonical text of an integer.
pub open spec fn print_int(i: int) -> Seq<char> {
    if i < 0 {
        seq!['-'] + dec_digits((-i) as nat)
    } else {
        dec_digits(i as nat)
    }
}

/// A string body with `"` and `\` escaped by a backslash.
pub open spec fn escape_str(s: Seq<char>) -> Seq<char>
    decreases s.len(),
{
    if s.len() == 0 {
        Seq::empty()
    } else {
        let head: Seq<char> = if s[0] == '"' || s[0] == '\\' {
            seq!['\\', s[0]]
        } else {
            seq![s[0]]
        };
        head + escape_str(s.drop_first())
    }
}

/// Canonical text of a string value: quoted, escaped body.
pub open spec fn print_str(s: Seq<char>) -> Seq<char> {
    seq!['"'] + escape_str(s) + seq!['"']
}

/// Canonical text of a value.
pub open spec fn print_val(v: JsonValueV) -> Seq<char>
    decreases v, 2int,
{
    match v {
        JsonValueV::Null => seq!['n', 'u', 'l', 'l'],
        JsonValueV::Bool(b) => if b {
            seq!['t', 'r', 'u', 'e']
        } else {
            seq!['f', 'a', 'l', 's', 'e']
        },
        JsonValueV::Int(n) => print_int(n),
        JsonValueV::Str(s) => print_str(s),
        JsonValueV::Arr(es) => seq!['['] + print_elems(es) + seq![']'],
        JsonValueV::Obj(ps) => seq!['{'] + print_pairs(ps) + seq!['}'],
    }
}

/// Canonical text of the elements of an array, comma separated.
pub open spec fn print_elems(es: Seq<JsonValueV>) -> Seq<char>
    decreases es, 1int,
{
    if es.len() == 0 {
        Seq::empty()
    } else if es.len() == 1 {
        print_val(es[0])
    } else {
        print_val(es[0]) + seq![','] + print_elems(es.drop_first())
    }
}

/// Canonical text of the members of an object, comma separated.
pub open spec fn print_pairs(ps: Seq<(Seq<char>, JsonValueV)>) -> Seq<char>
    decreases ps, 1int,
{
    if ps.len() == 0 {
        Seq::empty()
    } else {
        let member = print_str(ps[0].0) + seq![':'] + print_val(ps[0].1);
        if ps.len() == 1 {
            member
        } else {
            member + seq![','] + print_pairs(ps.drop_first())
        }
    }
}

/// Relies on std's `String::push`: appends exactly the one character.
#[verifier::external_body]
pub(crate) fn push_char(s: &mut String, c: char)
    ensures
        final(s)@ == old(s)@.push(c),
{
    s.push(c);
}

/// Writes the decimal digits of `n` onto `out`.
fn write_u64(n: u64, out: &mut String)
    ensures
        final(out)@ == old(out)@ + dec_digits(n as nat),
    decreases n,
{
    if n < 10 {
        push_char(out, (48u8 + n as u8) as char);
        assert(out@ =~= old(out)@ + dec_digits(n as nat));
    } else {
        write_u64(n / 10, out);
        push_char(out, (48u8 + (n % 10) as u8) as char);
        assert(out@ =~= old(out)@ + dec_digits(n as nat));
    }
}

/// Writes the canonical text of an integer onto `out`.
fn write_int(i: i64, out: &mut String)
    ensures
        final(out)@ == old(out)@ + print_int(i as int),
{
    if i < 0 {
        push_char(out, '-');
        let m: u64 = ((-(i + 1)) as u64) + 1;
        assert(m == -(i as int));
        write_u64(m, out);
        assert(out@ =~= old(out)@ + print_int(i as int));
    } else {
        write_u64(i as u64, out);
    }
}

/// Collects the characters of a string slice.
pub fn str_to_chars(s: &str) -> (cs: Vec<char>)
    ensures
        cs@ == s@,
{
    let mut cs: Vec<char> = Vec::new();
    for c in it: s.chars()
        invariant
            it.seq() == s@,
            cs@ == it.seq().take(it.index() as int),
    {
        cs.push(c);
    }
    proof {
        assert(cs@ =~= s@);
    }
    cs
}

/// The escaped form of one character.
pub open spec fn escaped_char(c: char) -> Seq<char> {
    if c == '"' || c == '\\' {
        seq!['\\', c]
    } else {
        seq![c]
    }
}

proof fn lemma_escape_push(p: Seq<char>, c: char)
    ensures
        escape_str(p.push(c)) == escape_str(p) + escaped_char(c),
    decreases p.len(),
{
    if p.len() == 0 {
        assert(p.push(c).len() == 1);
        assert(p.push(c)[0] == c);
        assert(p.push(c).drop_first() =~= Seq::<char>::empty());
        assert(escape_str(p.push(c)) == escaped_char(c) + escape_str(Seq::<char>::empty()));
        assert(escape_str(p.push(c)) =~= escape_str(p) + escaped_char(c));
    } else {
        lemma_escape_push(p.drop_first(), c);
        assert(p.push(c).drop_first() =~= p.drop_first().push(c));
        assert(escape_str(p.push(c)) =~= escape_str(p) + escaped_char(c));
    }
}

/// Writes the escaped, quoted form of a string value onto `out`.
fn write_str(s: &str, out: &mut String)
    ensures
        final(out)@ == old(out)@ + print_str(s@),
{
    let ghost out0 = out@;
    push_char(out, '"');
    let cs = str_to_chars(s);
    let mut k: usize = 0;
    while k < cs.len()
        invariant
            k <= cs@.len(),
            cs@ == s@,
            out@ == out0 + seq!['"'] + escape_str(s@.take(k as int)),
        decreases cs@.len() - k,
    {
        let c = cs[k];
        if c == '"' || c == '\\' {
            push_char(out, '\\');
        }
        push_char(out, c);
        proof {
            lemma_escape_push(s@.take(k as int), c);
            assert(s@.take(k as int).push(c) =~= s@.take(k + 1int));
            assert(out@ =~= out0 + seq!['"'] + escape_str(s@.take(k + 1int)));
        }
        k = k + 1;
    }
    push_char(out, '"');
    proof {
        assert(s@.take(cs@.len() as int) =~= s@);
        assert(out@ =~= out0 + print_str(s@));
    }
}

/// Length of a modelled element sequence.
proof fn lemma_view_elems_len(vs: Seq<JsonValue>)
    ensures
        view_of_elems(vs).len() == vs.len(),
    decreases vs.len(),
{
    if vs.len() > 0 {
        lemma_view_elems_len(vs.drop_first());
    }
}

/// Length of a modelled pair sequence.
proof fn lemma_view_pairs_len(ps: Seq<(String, JsonValue)>)
    ensures
        view_of_pairs(ps).len() == ps.len(),
    decreases ps.len(),
{
    if ps.len() > 0 {
        lemma_view_pairs_len(ps.drop_first());
    }
}

/// Writes the canonical text of a value onto `out`.
fn write_val(v: &JsonValue, out: &mut String)
    ensures
        final(out)@ == old(out)@ + print_val(v.deep_view()),
    decreases v, 0int, 0int,
{
    match v {
        JsonValue::Null => {
            proof {
                reveal_strlit("null");
            }
            out.append("null");
            assert(out@ =~= old(out)@ + print_val(v.deep_view()));
        },
        JsonValue::Bool(b) => {
            proof {
                reveal_strlit("true");
                reveal_strlit("false");
            }
            if *b {
                out.append("true");
            } else {
                out.append("false");
            }
            assert(out@ =~= old(out)@ + print_val(v.deep_view()));
        },
        JsonValue::Int(n) => {
            write_int(*n, out);
        },
        JsonValue::Str(s) => {
            write_str(s.as_str(), out);
        },
        JsonValue::Arr(vs) => {
            push_char(out, '[');
            if vs.len() > 0 {
                write_elems(vs, 0, out);
            }
            push_char(out, ']');
            proof {
                lemma_view_elems_len(vs@.skip(0));
                assert(vs@.skip(0) =~= vs@);
                assert(out@ =~= old(out)@ + print_val(v.deep_view()));
            }
        },
        JsonValue::Obj(ps) => {
            push_char(out, '{');
            if ps.len() > 0 {
                write_pairs(ps, 0, out);
            }
            push_char(out, '}');
            proof {
                lemma_view_pairs_len(ps@.skip(0));
                assert(ps@.skip(0) =~= ps@);
                assert(out@ =~= old(out)@ + print_val(v.deep_view()));
            }
        },
    }
}

/// Writes the elements `vs[k..]`, comma separated, onto `out`.
fn write_elems(vs: &Vec<JsonValue>, k: usize, out: &mut String)
    requires
        k < vs@.len(),
    ensures
        final(out)@ == old(out)@ + print_elems(view_of_elems(vs@.skip(k as int))),
    decreases vs, vs@.len() - k, 1int,
{
    let ghost es = view_of_elems(vs@.skip(k as int));
    proof {
        lemma_view_elems_len(vs@.skip(k as int));
        assert(vs@.skip(k as int)[0] == vs@[k as int]);
        assert(vs@.skip(k as int).drop_first() =~= vs@.skip(k as int + 1));
    }
    write_val(&vs[k], out);
    let n = vs.len();
    assert(k < n);
    if k + 1 < n {
        push_char(out, ',');
        write_elems(vs, k + 1, out);
        proof {
            assert(es[0] == vs@[k as int].deep_view());
            assert(es.drop_first() =~= view_of_elems(vs@.skip(k as int + 1)));
            assert(out@ =~= old(out)@ + print_elems(es));
        }
    } else {
        proof {
            assert(es.len() == 1);
            assert(es[0] == vs@[k as int].deep_view());
            assert(out@ =~= old(out)@ + print_elems(es));
        }
    }
}

/// Writes the members `ps[k..]`, comma separated, onto `out`.
fn write_pairs(ps: &Vec<(String, JsonValue)>, k: usize, out: &mut String)
    requires
        k < ps@.len(),
    ensures
        final(out)@ == old(out)@ + print_pairs(view_of_pairs(ps@.skip(k as int))),
    decreases ps, ps@.len() - k, 1int,
{
    let ghost ms = view_of_pairs(ps@.skip(k as int));
    proof {
        lemma_view_pairs_len(ps@.skip(k as int));
        assert(ps@.skip(k as int)[0] == ps@[k as int]);
        assert(ps@.skip(k as int).drop_first() =~= ps@.skip(k as int + 1));
    }
    write_str(ps[k].0.as_str(), out);
    push_char(out, ':');
    write_val(&ps[k].1, out);
    let n = ps.len();
    assert(k < n);
    if k + 1 < n {
        push_char(out, ',');
        write_pairs(ps, k + 1, out);
        proof {
            assert(ms[0] == (ps@[k as int].0@, ps@[k as int].1.deep_view()));
            assert(ms.drop_first() =~= view_of_pairs(ps@.skip(k as int + 1)));
            assert(out@ =~= old(out)@ + print_pairs(ms));
        }
    } else {
        proof {
            assert(ms.len() == 1);
            assert(ms[0] == (ps@[k as int].0@, ps@[k as int].1.deep_view()));
            assert(out@ =~= old(out)@ + print_pairs(ms));
        }
    }
}

// ------------------------------------------------------------------
// Parsing the canonical text form back into a value.
// ------------------------------------------------------------------

/// Whether a character is a decimal digit.
pub open spec fn is_digit(c: char) -> bool {
    48 <= c as int && c as int <= 57
}

/// Numeric value of a digit character.
pub open spec fn digit_val(c: char) -> int {
    c as int - 48
}

/// Length of the maximal digit prefix.
pub open spec fn digits_len(s: Seq<char>) -> int
    decreases s.len(),
{
    if s.len() == 0 || !is_digit(s[0]) {
        0
    } else {
        1 + digits_len(s.drop_first())
    }
}

/// Value of a digit string, most significant digit first.
pub open spec fn dec_value(ds: Seq<char>) -> int
    decreases ds.len(),
{
    if ds.len() == 0 {
        0
    } else {
        dec_value(ds.drop_last()) * 10 + digit_val(ds.last())
    }
}

/// Parses an integer at the head of `s`: an optional sign and the maximal
/// digit run, rejected when its value does not fit the integer payload.
pub open spec fn parse_int(s: Seq<char>) -> Option<(JsonValueV, Seq<char>)> {
    let neg = s.len() > 0 && s[0] == '-';
    let body = if neg {
        s.drop_first()
    } else {
        s
    };
    let n = digits_len(body);
    if n == 0 {
        None
    } else {
        let m = dec_value(body.take(n));
        let v = if neg {
            -m
        } else {
            m
        };
        if i64::MIN <= v && v <= i64::MAX {
            Some((JsonValueV::Int(v), body.skip(n)))
        } else {
            None
        }
    }
}

/// Parses a string body up to and including the closing quote, undoing the
/// two escapes.
pub open spec fn parse_str_body(s: Seq<char>) -> Option<(Seq<char>, Seq<char>)>
    decreases s.len(),
{
    if s.len() == 0 {
        None
    } else if s[0] == '"' {
        Some((Seq::empty(), s.drop_first()))
    } else if s[0] == '\\' {
        if s.len() >= 2 && (s[1] == '"' || s[1] == '\\') {
            match parse_str_body(s.skip(2)) {
                Some((b, r)) => Some((seq![s[1]] + b, r)),
                None => None,
            }
        } else {
            None
        }
    } else {
        match parse_str_body(s.drop_first()) {
            Some((b, r)) => Some((seq![s[0]] + b, r)),
            None => None,
        }
    }
}

/// Parses one value at the head of `s`.
pub open spec fn parse_val(s: Seq<char>) -> Option<(JsonValueV, Seq<char>)>
    decreases s.len(), 0int,
{
    if s.len() == 0 {
        None
    } else if s[0] == 'n' {
        if s.len() >= 4 && s[1] == 'u' && s[2] == 'l' && s[3] == 'l' {
            Some((JsonValueV::Null, s.skip(4)))
        } else {
            None
        }
    } else if s[0] == 't' {
        if s.len() >= 4 && s[1] == 'r' && s[2] == 'u' && s[3] == 'e' {
            Some((JsonValueV::Bool(true), s.skip(4)))
        } else {
            None
        }
    } else if s[0] == 'f' {
        if s.len() >= 5 && s[1] == 'a' && s[2] == 'l' && s[3] == 's' && s[4] == 'e' {
            Some((JsonValueV::Bool(false), s.skip(5)))
        } else {
            None
        }
    } else if s[0] == '"' {
        match parse_str_body(s.drop_first()) {
            Some((b, r)) => Some((JsonValueV::Str(b), r)),
            None => None,
        }
    } else if s[0] == '-' || is_digit(s[0]) {
        parse_int(s)
    } else if s[0] == '[' {
        if s.len() >= 2 && s[1] == ']' {
            Some((JsonValueV::Arr(Seq::empty()), s.skip(2)))
        } else {
            match parse_elems(s.drop_first()) {
                Some((es, r)) => if r.len() > 0 && r[0] == ']' {
                    Some((JsonValueV::Arr(es), r.drop_first()))
                } else {
                    None
                },
                None => None,
            }
        }
    } else if s[0] == '{' {
        if s.len() >= 2 && s[1] == '}' {
            Some((JsonValueV::Obj(Seq::empty()), s.skip(2)))
        } else {
            match parse_pairs(s.drop_first()) {
                Some((ps, r)) => if r.len() > 0 && r[0] == '}' {
                    Some((JsonValueV::Obj(ps), r.drop_first()))
                } else {
                    None
                },
                None => None,
            }
        }
    } else {
        None
    }
}

/// Parses a non-empty, comma-separated element list. A parsed value always
/// consumes at least one character (`lemma_parse_val_consumes`), so the
/// length guards are never taken; they keep the recursion well-founded.
pub open spec fn parse_elems(s: Seq<char>) -> Option<(Seq<JsonValueV>, Seq<char>)>
    decreases s.len(), 1int,
{
    match parse_val(s) {
        None => None,
        Some((v, r1)) => if r1.len() >= s.len() {
            None
        } else if r1.len() > 0 && r1[0] == ',' {
            match parse_elems(r1.drop_first()) {
                Some((vs, r2)) => Some((seq![v] + vs, r2)),
                None => None,
            }
        } else {
            Some((seq![v], r1))
        },
    }
}

/// Parses a non-empty, comma-separated member list, each member a quoted
/// key, a colon and a value. The length guards are never taken; they keep
/// the recursion well-founded.
pub open spec fn parse_pairs(s: Seq<char>) -> Option<(Seq<(Seq<char>, JsonValueV)>, Seq<char>)>
    decreases s.len(), 1int,
{
    if s.len() == 0 || s[0] != '"' {
        None
    } else {
        match parse_str_body(s.drop_first()) {
            None => None,
            Some((key, r1)) => if r1.len() == 0 || r1[0] != ':' {
                None
            } else {
                let r2 = r1.drop_first();
                if r2.len() >= s.len() {
                    None
                } else {
                    match parse_val(r2) {
                        None => None,
                        Some((v, r3)) => if r3.len() >= r2.len() {
                            None
                        } else if r3.len() > 0 && r3[0] == ',' {
                            match parse_pairs(r3.drop_first()) {
                                Some((ps, r4)) => Some((seq![(key, v)] + ps, r4)),
                                None => None,
                            }
                        } else {
                            Some((seq![(key, v)], r3))
                        },
                    }
                }
            },
        }
    }
}

/// Parses a whole document: one value consuming all of `s`.
pub open spec fn parse_doc(s: Seq<char>) -> Option<JsonValueV> {
    match parse_val(s) {
        Some((v, r)) => if r.len() == 0 {
            Some(v)
        } else {
            None
        },
        None => None,
    }
}

/// The maximal digit prefix is no longer than the string.
proof fn lemma_digits_len_bounds(s: Seq<char>)
    ensures
        0 <= digits_len(s) <= s.len(),
    decreases s.len(),
{
    if s.len() > 0 && is_digit(s[0]) {
        lemma_digits_len_bounds(s.drop_first());
    }
}

/// A successfully parsed string body consumes at least its closing quote.
proof fn lemma_parse_str_body_consumes(s: Seq<char>)
    ensures
        parse_str_body(s) matches Some((b, r)) ==> r.len() < s.len(),
    decreases s.len(),
{
    if s.len() > 0 && s[0] != '"' {
        if s[0] == '\\' {
            if s.len() >= 2 && (s[1] == '"' || s[1] == '\\') {
                lemma_parse_str_body_consumes(s.skip(2));
            }
        } else {
            lemma_parse_str_body_consumes(s.drop_first());
        }
    }
}

/// A successfully parsed element list consumes at least one character.
proof fn lemma_parse_elems_consumes(s: Seq<char>)
    ensures
        parse_elems(s) matches Some((es, r)) ==> r.len() < s.len(),
    decreases s.len(),
{
    match parse_val(s) {
        None => {},
        Some((v, r1)) => {
            if r1.len() < s.len() && r1.len() > 0 && r1[0] == ',' {
                lemma_parse_elems_consumes(r1.drop_first());
            }
        },
    }
}

/// A successfully parsed member list consumes at least one character.
proof fn lemma_parse_pairs_consumes(s: Seq<char>)
    ensures
        parse_pairs(s) matches Some((ps, r)) ==> r.len() < s.len(),
    decreases s.len(),
{
    if s.len() > 0 && s[0] == '"' {
        match parse_str_body(s.drop_first()) {
            None => {},
            Some((key, r1)) => {
                if r1.len() > 0 && r1[0] == ':' {
                    let r2 = r1.drop_first();
                    if r2.len() < s.len() {
                        match parse_val(r2) {
                            None => {},
                            Some((v, r3)) => {
                                if r3.len() < r2.len() && r3.len() > 0 && r3[0] == ',' {
                                    lemma_parse_pairs_consumes(r3.drop_first());
                                }
                            },
                        }
                    }
                }
            },
        }
    }
}

/// A successfully parsed value consumes at least one character.
proof fn lemma_parse_val_consumes(s: Seq<char>)
    ensures
        parse_val(s) matches Some((v, r)) ==> r.len() < s.len(),
{
    if s.len() > 0 {
        if s[0] == '"' {
            lemma_parse_str_body_consumes(s.drop_first());
        } else if s[0] == '-' || is_digit(s[0]) {
            if s[0] == '-' {
                lemma_digits_len_bounds(s.drop_first());
            } else {
                lemma_digits_len_bounds(s);
            }
        } else if s[0] == '[' {
            if !(s.len() >= 2 && s[1] == ']') {
                lemma_parse_elems_consumes(s.drop_first());
            }
        } else if s[0] == '{' {
            if !(s.len() >= 2 && s[1] == '}') {
                lemma_parse_pairs_consumes(s.drop_first());
            }
        }
    }
}

/// Whether a character is a decimal digit.
fn is_digit_c(c: char) -> (b: bool)
    ensures
        b == is_digit(c),
{
    let u = c as u32;
    48 <= u && u <= 57
}

proof fn lemma_dec_value_push(ds: Seq<char>, c: char)
    ensures
        dec_value(ds.push(c)) == dec_value(ds) * 10 + digit_val(c),
{
    assert(ds.push(c).drop_last() =~= ds);
    assert(ds.push(c).last() == c);
}

proof fn lemma_dec_value_nonneg(ds: Seq<char>)
    requires
        forall|t: int| 0 <= t < ds.len() ==> is_digit(#[trigger] ds[t]),
    ensures
        dec_value(ds) >= 0,
    decreases ds.len(),
{
    if ds.len() > 0 {
        lemma_dec_value_nonneg(ds.drop_last());
    }
}

/// Parses a string body starting at `i` (just after the opening quote).
fn parse_str_body_at(cs: &Vec<char>, i: usize) -> (r: Option<(String, usize)>)
    requires
        i <= cs@.len(),
    ensures
        match r {
            Some((b, j)) => i <= j <= cs@.len() && parse_str_body(cs@.skip(i as int)) == Some(
                (b@, cs@.skip(j as int)),
            ),
            None => parse_str_body(cs@.skip(i as int)) is None,
        },
{
    let mut b = String::new();
    let mut k: usize = i;
    proof {
        match parse_str_body(cs@.skip(i as int)) {
            Some((bb, r)) => {
                assert(Seq::<char>::empty() + bb =~= bb);
            },
            None => {},
        }
    }
    loop
        invariant
            i <= k <= cs@.len(),
            match parse_str_body(cs@.skip(k as int)) {
                Some((bb, r)) => parse_str_body(cs@.skip(i as int)) == Some((b@ + bb, r)),
                None => parse_str_body(cs@.skip(i as int)) is None,
            },
        decreases cs@.len() - k,
    {
        if k == cs.len() {
            return None;
        }
        let c = cs[k];
        let ghost sk = cs@.skip(k as int);
        proof {
            assert(sk[0] == cs@[k as int]);
        }
        if c == '"' {
            proof {
                assert(sk.drop_first() =~= cs@.skip(k as int + 1));
                assert(parse_str_body(sk) == Some((Seq::<char>::empty(), cs@.skip(k as int + 1))));
                assert(b@ + Seq::<char>::empty() =~= b@);
            }
            return Some((b, k + 1));
        } else if c == '\\' {
            if k + 1 < cs.len() && (cs[k + 1] == '"' || cs[k + 1] == '\\') {
                let e = cs[k + 1];
                proof {
                    assert(sk.len() >= 2);
                    assert(sk[1] == cs@[k as int + 1]);
                    assert(sk.skip(2) =~= cs@.skip(k as int + 2));
                    match parse_str_body(cs@.skip(k as int + 2)) {
                        Some((bb, r)) => {
                            assert(parse_str_body(sk) == Some((seq![e] + bb, r)));
                            assert(b@ + (seq![e] + bb) =~= b@.push(e) + bb);
                        },
                        None => {},
                    }
                }
                push_char(&mut b, e);
                k = k + 2;
            } else {
                proof {
                    if sk.len() >= 2 {
                        assert(sk[1] == cs@[k as int + 1]);
                    }
                    assert(parse_str_body(sk) is None);
                }
                return None;
            }
        } else {
            proof {
                assert(sk.drop_first() =~= cs@.skip(k as int + 1));
                match parse_str_body(cs@.skip(k as int + 1)) {
                    Some((bb, r)) => {
                        assert(parse_str_body(sk) == Some((seq![c] + bb, r)));
                        assert(b@ + (seq![c] + bb) =~= b@.push(c) + bb);
                    },
                    None => {},
                }
            }
            push_char(&mut b, c);
            k = k + 1;
        }
    }
}

/// Parses an integer starting at `i`.
fn parse_int_at(cs: &Vec<char>, i: usize) -> (r: Option<(i64, usize)>)
    requires
        i <= cs@.len(),
    ensures
        match r {
            Some((v, j)) => i <= j <= cs@.len() && parse_int(cs@.skip(i as int)) == Some(
                (JsonValueV::Int(v as int), cs@.skip(j as int)),
            ),
            None => parse_int(cs@.skip(i as int)) is None,
        },
{
    let ghost s = cs@.skip(i as int);
    let mut k: usize = i;
    let mut neg = false;
    if k < cs.len() && cs[k] == '-' {
        neg = true;
        k = k + 1;
    }
    proof {
        assert(s.len() > 0 ==> s[0] == cs@[i as int]);
    }
    let ghost body = if neg { s.drop_first() } else { s };
    proof {
        assert(body =~= cs@.skip(k as int));
    }
    let start = k;
    let mut acc: u128 = 0;
    let mut over = false;
    while k < cs.len() && is_digit_c(cs[k])
        invariant
            i <= start <= k <= cs@.len(),
            body == cs@.skip(start as int),
            k < cs@.len() ==> cs@.skip(k as int)[0] == cs@[k as int],
            forall|t: int| start <= t < k ==> is_digit(#[trigger] cs@[t]),
            digits_len(body) == digits_len(cs@.skip(k as int)) + (k - start),
            !over ==> acc == dec_value(cs@.subrange(start as int, k as int)) && acc <= u64::MAX,
            over ==> dec_value(cs@.subrange(start as int, k as int)) > u64::MAX,
        decreases cs@.len() - k,
    {
        let c = cs[k];
        let d: u128 = (c as u32 - 48) as u128;
        let ghost ds = cs@.subrange(start as int, k as int);
        proof {
            assert(cs@.skip(k as int)[0] == cs@[k as int]);
            assert(is_digit(cs@[k as int]));
            assert(cs@.skip(k as int).drop_first() =~= cs@.skip(k as int + 1));
            assert(digits_len(cs@.skip(k as int)) == 1 + digits_len(cs@.skip(k as int + 1)));
            assert(ds.push(c) =~= cs@.subrange(start as int, k as int + 1));
            lemma_dec_value_push(ds, c);
            assert(digit_val(c) == d);
        }
        if !over {
            acc = acc * 10 + d;
            if acc > u64::MAX as u128 {
                over = true;
            }
        } else {
            proof {
                assert(dec_value(ds) > u64::MAX);
                assert(dec_value(ds.push(c)) == dec_value(ds) * 10 + digit_val(c));
                assert(dec_value(ds) * 10 == dec_value(ds) * 10);
                assert(dec_value(ds.push(c)) > u64::MAX);
            }
        }
        k = k + 1;
    }
    let ghost n = (k - start) as int;
    proof {
        if k < cs@.len() {
            assert(cs@.skip(k as int)[0] == cs@[k as int]);
            assert(!is_digit(cs@.skip(k as int)[0]));
        }
        assert(digits_len(cs@.skip(k as int)) == 0);
        assert(digits_len(body) == n);
        assert(body.take(n) =~= cs@.subrange(start as int, k as int));
        assert(body.skip(n) =~= cs@.skip(k as int));
    }
    if k == start {
        return None;
    }
    let ghost m = dec_value(body.take(n));
    proof {
        lemma_dec_value_nonneg(cs@.subrange(start as int, k as int));
    }
    if over {
        proof {
            assert(m > u64::MAX);
        }
        return None;
    }
    let mag: u64 = acc as u64;
    if neg {
        if mag <= i64::MAX as u64 {
            let v: i64 = -(mag as i64);
            return Some((v, k));
        } else if mag == i64::MAX as u64 + 1 {
            let v: i64 = i64::MIN;
            return Some((v, k));
        } else {
            return None;
        }
    } else {
        if mag <= i64::MAX as u64 {
            let v: i64 = mag as i64;
            return Some((v, k));
        } else {
            return None;
        }
    }
}

/// Parses one value starting at `i`.
fn parse_val_at(cs: &Vec<char>, i: usize) -> (r: Option<(JsonValue, usize)>)
    requires
        i <= cs@.len(),
    ensures
        match r {
            Some((v, j)) => i <= j <= cs@.len() && parse_val(cs@.skip(i as int)) == Some(
                (v.deep_view(), cs@.skip(j as int)),
            ),
            None => parse_val(cs@.skip(i as int)) is None,
        },
    decreases cs@.len() - i, 0int,
{
    let ghost s = cs@.skip(i as int);
    let n = cs.len();
    if i == n {
        return None;
    }
    let c = cs[i];
    proof {
        assert(s[0] == cs@[i as int]);
        assert(forall|t: int| 0 <= t < s.len() ==> s[t] == cs@[i as int + t]);
    }
    if c == 'n' {
        if n - i >= 4 && cs[i + 1] == 'u' && cs[i + 2] == 'l' && cs[i + 3] == 'l' {
            proof {
                assert(s.skip(4) =~= cs@.skip(i as int + 4));
            }
            Some((JsonValue::Null, i + 4))
        } else {
            None
        }
    } else if c == 't' {
        if n - i >= 4 && cs[i + 1] == 'r' && cs[i + 2] == 'u' && cs[i + 3] == 'e' {
            proof {
                assert(s.skip(4) =~= cs@.skip(i as int + 4));
            }
            Some((JsonValue::Bool(true), i + 4))
        } else {
            None
        }
    } else if c == 'f' {
        if n - i >= 5 && cs[i + 1] == 'a' && cs[i + 2] == 'l' && cs[i + 3] == 's' && cs[i + 4]
            == 'e' {
            proof {
                assert(s.skip(5) =~= cs@.skip(i as int + 5));
            }
            Some((JsonValue::Bool(false), i + 5))
        } else {
            None
        }
    } else if c == '"' {
        proof {
            assert(s.drop_first() =~= cs@.skip(i as int + 1));
        }
        match parse_str_body_at(cs, i + 1) {
            Some((b, j)) => Some((JsonValue::Str(b), j)),
            None => None,
        }
    } else if c == '-' || is_digit_c(c) {
        match parse_int_at(cs, i) {
            Some((v, j)) => Some((JsonValue::Int(v), j)),
            None => None,
        }
    } else if c == '[' {
        if n - i >= 2 && cs[i + 1] == ']' {
            proof {
                assert(s.skip(2) =~= cs@.skip(i as int + 2));
                assert(view_of_elems(Seq::<JsonValue>::empty()) =~= Seq::<JsonValueV>::empty());
            }
            let es: Vec<JsonValue> = Vec::new();
            proof {
                assert(es@ =~= Seq::<JsonValue>::empty());
            }
            Some((JsonValue::Arr(es), i + 2))
        } else {
            proof {
                assert(s.drop_first() =~= cs@.skip(i as int + 1));
            }
            match parse_elems_at(cs, i + 1) {
                Some((es, j)) => {
                    if j < cs.len() {
                        let cj = cs[j];
                        proof {
                            assert(cs@.skip(j as int)[0] == cs@[j as int]);
                            assert(cs@.skip(j as int).drop_first() =~= cs@.skip(j as int + 1));
                        }
                        if cj == ']' {
                            Some((JsonValue::Arr(es), j + 1))
                        } else {
                            None
                        }
                    } else {
                        None
                    }
                },
                None => None,
            }
        }
    } else if c == '{' {
        if n - i >= 2 && cs[i + 1] == '}' {
            proof {
                assert(s.skip(2) =~= cs@.skip(i as int + 2));
                assert(view_of_pairs(Seq::<(String, JsonValue)>::empty()) =~= Seq::<
                    (Seq<char>, JsonValueV),
                >::empty());
            }
            let ps: Vec<(String, JsonValue)> = Vec::new();
            proof {
                assert(ps@ =~= Seq::<(String, JsonValue)>::empty());
            }
            Some((JsonValue::Obj(ps), i + 2))
        } else {
            proof {
                assert(s.drop_first() =~= cs@.skip(i as int + 1));
            }
            match parse_pairs_at(cs, i + 1) {
                Some((ps, j)) => {
                    if j < cs.len() {
                        let cj = cs[j];
                        proof {
                            assert(cs@.skip(j as int)[0] == cs@[j as int]);
                            assert(cs@.skip(j as int).drop_first() =~= cs@.skip(j as int + 1));
                        }
                        if cj == '}' {
                            Some((JsonValue::Obj(ps), j + 1))
                        } else {
                            None
                        }
                    } else {
                        None
                    }
                },
                None => None,
            }
        }
    } else {
        None
    }
}

/// Parses a non-empty element list starting at `i`.
fn parse_elems_at(cs: &Vec<char>, i: usize) -> (r: Option<(Vec<JsonValue>, usize)>)
    requires
        i <= cs@.len(),
    ensures
        match r {
            Some((es, j)) => i <= j <= cs@.len() && parse_elems(cs@.skip(i as int)) == Some(
                (view_of_elems(es@), cs@.skip(j as int)),
            ),
            None => parse_elems(cs@.skip(i as int)) is None,
        },
    decreases cs@.len() - i, 1int,
{
    let ghost s = cs@.skip(i as int);
    match parse_val_at(cs, i) {
        None => None,
        Some((v, j)) => {
            proof {
                lemma_parse_val_consumes(s);
                assert(cs@.skip(j as int).len() < s.len());
            }
            if j < cs.len() {
                let cj = cs[j];
                proof {
                    assert(cs@.skip(j as int)[0] == cs@[j as int]);
                    assert(cs@.skip(j as int).drop_first() =~= cs@.skip(j as int + 1));
                }
                if cj == ',' {
                    match parse_elems_at(cs, j + 1) {
                        None => None,
                        Some((more, j2)) => {
                            let mut es: Vec<JsonValue> = Vec::new();
                            es.push(v);
                            let mut more = more;
                            let ghost morev = more@;
                            es.append(&mut more);
                            proof {
                                assert(es@[0] == v);
                                assert(es@.drop_first() =~= morev);
                                assert(view_of_elems(es@) =~= seq![v.deep_view()]
                                    + view_of_elems(morev));
                            }
                            Some((es, j2))
                        },
                    }
                } else {
                    let mut es: Vec<JsonValue> = Vec::new();
                    es.push(v);
                    proof {
                        reveal_with_fuel(view_of_elems, 2);
                        assert(es@[0] == v);
                        assert(es@.drop_first() =~= Seq::<JsonValue>::empty());
                        assert(view_of_elems(es@) =~= seq![v.deep_view()]);
                    }
                    Some((es, j))
                }
            } else {
                let mut es: Vec<JsonValue> = Vec::new();
                es.push(v);
                proof {
                    reveal_with_fuel(view_of_elems, 2);
                    assert(es@[0] == v);
                    assert(es@.drop_first() =~= Seq::<JsonValue>::empty());
                    assert(view_of_elems(es@) =~= seq![v.deep_view()]);
                }
                Some((es, j))
            }
        },
    }
}

/// Parses a non-empty member list starting at `i`.
fn parse_pairs_at(cs: &Vec<char>, i: usize) -> (r: Option<(Vec<(String, JsonValue)>, usize)>)
    requires
        i <= cs@.len(),
    ensures
        match r {
            Some((ps, j)) => i <= j <= cs@.len() && parse_pairs(cs@.skip(i as int)) == Some(
                (view_of_pairs(ps@), cs@.skip(j as int)),
            ),
            None => parse_pairs(cs@.skip(i as int)) is None,
        },
    decreases cs@.len() - i, 1int,
{
    let ghost s = cs@.skip(i as int);
    if i == cs.len() {
        return None;
    }
    let c = cs[i];
    proof {
        assert(s[0] == cs@[i as int]);
    }
    if c != '"' {
        return None;
    }
    proof {
        assert(s.drop_first() =~= cs@.skip(i as int + 1));
    }
    match parse_str_body_at(cs, i + 1) {
        None => None,
        Some((key, j1)) => {
            proof {
                lemma_parse_str_body_consumes(cs@.skip(i as int + 1));
            }
            if j1 == cs.len() {
                return None;
            }
            let c1 = cs[j1];
            proof {
                assert(cs@.skip(j1 as int)[0] == cs@[j1 as int]);
                assert(cs@.skip(j1 as int).drop_first() =~= cs@.skip(j1 as int + 1));
            }
            if c1 != ':' {
                return None;
            }
            let j2 = j1 + 1;
            proof {
                assert(cs@.skip(j2 as int).len() < s.len());
            }
            match parse_val_at(cs, j2) {
                None => None,
                Some((v, j3)) => {
                    proof {
                        lemma_parse_val_consumes(cs@.skip(j2 as int));
                    }
                    if j3 < cs.len() {
                        let c3 = cs[j3];
                        proof {
                            assert(cs@.skip(j3 as int)[0] == cs@[j3 as int]);
                            assert(cs@.skip(j3 as int).drop_first() =~= cs@.skip(j3 as int + 1));
                        }
                        if c3 == ',' {
                            match parse_pairs_at(cs, j3 + 1) {
                                None => None,
                                Some((more, j4)) => {
                                    let ghost keyv = key@;
                                    let ghost vv = v.deep_view();
                                    let mut ps: Vec<(String, JsonValue)> = Vec::new();
                                    ps.push((key, v));
                                    let mut more = more;
                                    let ghost morev = more@;
                                    ps.append(&mut more);
                                    proof {
                                        assert(ps@.drop_first() =~= morev);
                                        assert(view_of_pairs(ps@) =~= seq![(keyv, vv)]
                                            + view_of_pairs(morev));
                                    }
                                    Some((ps, j4))
                                },
                            }
                        } else {
                            let mut ps: Vec<(String, JsonValue)> = Vec::new();
                            ps.push((key, v));
                            proof {
                                reveal_with_fuel(view_of_pairs, 2);
                                assert(ps@[0].0 == key && ps@[0].1 == v);
                                assert(ps@.drop_first() =~= Seq::<(String, JsonValue)>::empty());
                                assert(view_of_pairs(ps@) =~= seq![(key@, v.deep_view())]);
                            }
                            Some((ps, j3))
                        }
                    } else {
                        let mut ps: Vec<(String, JsonValue)> = Vec::new();
                        ps.push((key, v));
                        proof {
                            reveal_with_fuel(view_of_pairs, 2);
                            assert(ps@[0].0 == key && ps@[0].1 == v);
                            assert(ps@.drop_first() =~= Seq::<(String, JsonValue)>::empty());
                            assert(view_of_pairs(ps@) =~= seq![(key@, v.deep_view())]);
                        }
                        Some((ps, j3))
                    }
                },
            }
        },
    }
}

/// Parses a whole document from its canonical text form.
pub fn from_text(s: &str) -> (r: Option<JsonValue>)
    ensures
        match r {
            Some(v) => parse_doc(s@) == Some(v.deep_view()),
            None => parse_doc(s@) is None,
        },
{
    let cs = str_to_chars(s);
    proof {
        assert(cs@.skip(0) =~= s@);
    }
    match parse_val_at(&cs, 0) {
        Some((v, j)) => {
            if j == cs.len() {
                proof {
                    assert(cs@.skip(j as int).len() == 0);
                }
                Some(v)
            } else {
                None
            }
        },
        None => None,
    }
}

/// Renders a value in its canonical text form.
pub fn to_text(v: &JsonValue) -> (t: String)
    ensures
        t@ == print_val(v.deep_view()),
{
    let mut out = String::new();
    write_val(v, &mut out);
    proof {
        assert(out@ =~= print_val(v.deep_view()));
    }
    out
}

// ------------------------------------------------------------------
// The round-trip law: parsing the canonical text of a value yields the
// value back.
// ------------------------------------------------------------------

/// Well-formedness of a value model: every integer fits the integer
/// payload. Values built from a `JsonValue` are always well formed.
pub open spec fn val_wf(v: JsonValueV) -> bool
    decreases v,
{
    match v {
        JsonValueV::Null => true,
        JsonValueV::Bool(_) => true,
        JsonValueV::Int(n) => i64::MIN <= n <= i64::MAX,
        JsonValueV::Str(_) => true,
        JsonValueV::Arr(es) => forall|t: int| 0 <= t < es.len() ==> val_wf(#[trigger] es[t]),
        JsonValueV::Obj(ps) => forall|t: int| 0 <= t < ps.len() ==> val_wf(#[trigger] ps[t].1),
    }
}

/// The model of any `JsonValue` is well formed.
pub proof fn lemma_view_wf(v: JsonValue)
    ensures
        val_wf(v.deep_view()),
    decreases v, 2int,
{
    match v {
        JsonValue::Arr(vs) => {
            lemma_elems_view_wf(vs@);
            assert(v.deep_view() == JsonValueV::Arr(view_of_elems(vs@)));
            assert(val_wf(v.deep_view()));
        },
        JsonValue::Obj(ps) => {
            lemma_pairs_view_wf(ps@);
            assert(v.deep_view() == JsonValueV::Obj(view_of_pairs(ps@)));
            assert(val_wf(v.deep_view()));
        },
        _ => {},
    }
}

proof fn lemma_elems_view_wf(vs: Seq<JsonValue>)
    ensures
        forall|t: int| 0 <= t < view_of_elems(vs).len() ==> val_wf(#[trigger] view_of_elems(vs)[t]),
    decreases vs, 1int,
{
    if vs.len() > 0 {
        lemma_view_wf(vs[0]);
        lemma_elems_view_wf(vs.drop_first());
        assert forall|t: int| 0 <= t < view_of_elems(vs).len() implies val_wf(
            #[trigger] view_of_elems(vs)[t],
        ) by {
            if t > 0 {
                assert(view_of_elems(vs)[t] == view_of_elems(vs.drop_first())[t - 1]);
            }
        }
    }
}

proof fn lemma_pairs_view_wf(ps: Seq<(String, JsonValue)>)
    ensures
        forall|t: int| 0 <= t < view_of_pairs(ps).len() ==> val_wf(#[trigger] view_of_pairs(ps)[t].1),
    decreases ps, 1int,
{
    if ps.len() > 0 {
        lemma_view_wf(ps[0].1);
        lemma_pairs_view_wf(ps.drop_first());
        assert forall|t: int| 0 <= t < view_of_pairs(ps).len() implies val_wf(
            #[trigger] view_of_pairs(ps)[t].1,
        ) by {
            if t > 0 {
                assert(view_of_pairs(ps)[t] == view_of_pairs(ps.drop_first())[t - 1]);
            }
        }
    }
}

/// The decimal digits of `n` are digits, nonempty, and evaluate to `n`.
proof fn lemma_dec_digits(n: nat)
    ensures
        dec_digits(n).len() >= 1,
        forall|t: int| 0 <= t < dec_digits(n).len() ==> is_digit(#[trigger] dec_digits(n)[t]),
        dec_value(dec_digits(n)) == n,
    decreases n,
{
    if n < 10 {
        assert(digit_val(digit_char(n as int)) == n);
        assert(dec_value(Seq::<char>::empty()) == 0);
        assert(dec_digits(n).drop_last() =~= Seq::<char>::empty());
        assert(dec_digits(n).last() == digit_char(n as int));
        assert(dec_value(dec_digits(n)) == 0 * 10 + digit_val(digit_char(n as int)));
    } else {
        lemma_dec_digits(n / 10);
        let prev = dec_digits(n / 10);
        let c = digit_char((n % 10) as int);
        lemma_dec_value_push(prev, c);
        assert(digit_val(c) == n % 10);
        assert(forall|t: int|
            0 <= t < prev.push(c).len() ==> is_digit(#[trigger] prev.push(c)[t]));
    }
}

/// The maximal digit prefix of a digit string followed by a non-digit is
/// exactly the digit string.
proof fn lemma_digits_len_concat(ds: Seq<char>, rest: Seq<char>)
    requires
        forall|t: int| 0 <= t < ds.len() ==> is_digit(#[trigger] ds[t]),
        rest.len() == 0 || !is_digit(rest[0]),
    ensures
        digits_len(ds + rest) == ds.len(),
    decreases ds.len(),
{
    if ds.len() == 0 {
        assert(ds + rest =~= rest);
    } else {
        lemma_digits_len_concat(ds.drop_first(), rest);
        assert((ds + rest)[0] == ds[0]);
        assert((ds + rest).drop_first() =~= ds.drop_first() + rest);
    }
}

/// Parsing the canonical text of an integer yields the integer back.
proof fn lemma_print_parse_int(n: int, rest: Seq<char>)
    requires
        i64::MIN <= n <= i64::MAX,
        rest.len() == 0 || !is_digit(rest[0]),
    ensures
        parse_int(print_int(n) + rest) == Some((JsonValueV::Int(n), rest)),
{
    let s = print_int(n) + rest;
    if n < 0 {
        let m = (-n) as nat;
        lemma_dec_digits(m);
        assert(s[0] == '-');
        assert(s.drop_first() =~= dec_digits(m) + rest);
        lemma_digits_len_concat(dec_digits(m), rest);
        let body = s.drop_first();
        let k = dec_digits(m).len() as int;
        assert(digits_len(body) == k);
        assert(body.take(k) =~= dec_digits(m));
        assert(body.skip(k) =~= rest);
        assert(dec_value(body.take(k)) == m);
    } else {
        let m = n as nat;
        lemma_dec_digits(m);
        assert(s.len() > 0);
        assert(s[0] == dec_digits(m)[0]);
        assert(is_digit(s[0]));
        assert(s[0] != '-');
        assert(s =~= dec_digits(m) + rest);
        lemma_digits_len_concat(dec_digits(m), rest);
        let k = dec_digits(m).len() as int;
        assert(digits_len(s) == k);
        assert(s.take(k) =~= dec_digits(m));
        assert(s.skip(k) =~= rest);
        assert(dec_value(s.take(k)) == m);
    }
}

/// Parsing an escaped string body followed by the closing quote yields the
/// string back.
proof fn lemma_print_parse_str_body(s0: Seq<char>, rest: Seq<char>)
    ensures
        parse_str_body(escape_str(s0) + seq!['"'] + rest) == Some((s0, rest)),
    decreases s0.len(),
{
    let input = escape_str(s0) + seq!['"'] + rest;
    if s0.len() == 0 {
        assert(input =~= seq!['"'] + rest);
        assert(input[0] == '"');
        assert(input.drop_first() =~= rest);
    } else {
        let c = s0[0];
        let t = escape_str(s0.drop_first()) + seq!['"'] + rest;
        lemma_print_parse_str_body(s0.drop_first(), rest);
        if c == '"' || c == '\\' {
            assert(escape_str(s0) =~= seq!['\\', c] + escape_str(s0.drop_first()));
            assert(input[0] == '\\');
            assert(input[1] == c);
            assert(input.len() >= 2);
            assert(input.skip(2) =~= t);
            assert(seq![c] + s0.drop_first() =~= s0);
        } else {
            assert(escape_str(s0) =~= seq![c] + escape_str(s0.drop_first()));
            assert(input[0] == c);
            assert(input.drop_first() =~= t);
            assert(seq![c] + s0.drop_first() =~= s0);
        }
    }
}

/// The canonical text of a value is nonempty and never starts with a
/// separator or closing bracket.
proof fn lemma_print_val_first(v: JsonValueV)
    ensures
        print_val(v).len() >= 1,
        print_val(v)[0] != ']',
        print_val(v)[0] != '}',
        print_val(v)[0] != ',',
        print_val(v)[0] != ':',
{
    match v {
        JsonValueV::Int(n) => {
            if n < 0 {
                assert(print_val(v)[0] == '-');
            } else {
                lemma_dec_digits(n as nat);
                assert(print_val(v)[0] == dec_digits(n as nat)[0]);
                assert(is_digit(print_val(v)[0]));
            }
        },
        _ => {},
    }
}

proof fn lemma_ppv_null(rest: Seq<char>)
    ensures
        parse_val(print_val(JsonValueV::Null) + rest) == Some((JsonValueV::Null, rest)),
{
    let s = print_val(JsonValueV::Null) + rest;
    assert(s[0] == 'n' && s[1] == 'u' && s[2] == 'l' && s[3] == 'l');
    assert(s.len() >= 4);
    assert(s.skip(4) =~= rest);
}

proof fn lemma_ppv_bool(b: bool, rest: Seq<char>)
    ensures
        parse_val(print_val(JsonValueV::Bool(b)) + rest) == Some((JsonValueV::Bool(b), rest)),
{
    let s = print_val(JsonValueV::Bool(b)) + rest;
    if b {
        assert(s[0] == 't' && s[1] == 'r' && s[2] == 'u' && s[3] == 'e');
        assert(s.len() >= 4);
        assert(s.skip(4) =~= rest);
    } else {
        assert(s[0] == 'f' && s[1] == 'a' && s[2] == 'l' && s[3] == 's' && s[4] == 'e');
        assert(s.len() >= 5);
        assert(s.skip(5) =~= rest);
    }
}

proof fn lemma_ppv_int(n: int, rest: Seq<char>)
    requires
        i64::MIN <= n <= i64::MAX,
        rest.len() == 0 || !is_digit(rest[0]),
    ensures
        parse_val(print_val(JsonValueV::Int(n)) + rest) == Some((JsonValueV::Int(n), rest)),
{
    let s = print_val(JsonValueV::Int(n)) + rest;
    lemma_print_parse_int(n, rest);
    assert(s =~= print_int(n) + rest);
    if n >= 0 {
        lemma_dec_digits(n as nat);
        assert(s[0] == dec_digits(n as nat)[0]);
        assert(is_digit(s[0]));
    } else {
        assert(s[0] == '-');
    }
}

proof fn lemma_ppv_str(s0: Seq<char>, rest: Seq<char>)
    ensures
        parse_val(print_val(JsonValueV::Str(s0)) + rest) == Some((JsonValueV::Str(s0), rest)),
{
    let s = print_val(JsonValueV::Str(s0)) + rest;
    assert(s[0] == '"');
    assert(s.drop_first() =~= escape_str(s0) + seq!['"'] + rest);
    lemma_print_parse_str_body(s0, rest);
}

/// Parsing the canonical text of a well-formed value, followed by anything
/// that does not start with a digit, yields the value back.
#[verifier::rlimit(60)]
pub proof fn lemma_print_parse_val(v: JsonValueV, rest: Seq<char>)
    requires
        val_wf(v),
        rest.len() == 0 || !is_digit(rest[0]),
    ensures
        parse_val(print_val(v) + rest) == Some((v, rest)),
    decreases v, 0int,
{
    let s = print_val(v) + rest;
    match v {
        JsonValueV::Null => {
            lemma_ppv_null(rest);
            assert(parse_val(print_val(v) + rest) == Some((v, rest)));
        },
        JsonValueV::Bool(b) => {
            lemma_ppv_bool(b, rest);
            assert(parse_val(print_val(v) + rest) == Some((v, rest)));
        },
        JsonValueV::Int(n) => {
            lemma_ppv_int(n, rest);
            assert(parse_val(print_val(v) + rest) == Some((v, rest)));
        },
        JsonValueV::Str(s0) => {
            lemma_ppv_str(s0, rest);
            assert(parse_val(print_val(v) + rest) == Some((v, rest)));
        },
        JsonValueV::Arr(es) => {
            assert(s[0] == '[');
            if es.len() == 0 {
                assert(s[1] == ']');
                assert(s.len() >= 2);
                assert(s.skip(2) =~= rest);
                assert(es =~= Seq::<JsonValueV>::empty());
                assert(parse_val(print_val(v) + rest) == Some((v, rest)));
            } else {
                let tail = seq![']'] + rest;
                lemma_print_val_first(es[0]);
                assert(print_elems(es)[0] == print_val(es[0])[0]);
                assert(s[1] == print_elems(es)[0]);
                assert(s[1] != ']');
                assert(s.drop_first() =~= print_elems(es) + tail);
                lemma_print_parse_elems(es, tail);
                assert(tail.len() > 0 && tail[0] == ']');
                assert(tail.drop_first() =~= rest);
                assert(parse_val(print_val(v) + rest) == Some((v, rest)));
            }
        },
        JsonValueV::Obj(ps) => {
            assert(s[0] == '{');
            if ps.len() == 0 {
                assert(s[1] == '}');
                assert(s.len() >= 2);
                assert(s.skip(2) =~= rest);
                assert(ps =~= Seq::<(Seq<char>, JsonValueV)>::empty());
                assert(parse_val(print_val(v) + rest) == Some((v, rest)));
            } else {
                let tail = seq!['}'] + rest;
                assert(print_pairs(ps)[0] == print_str(ps[0].0)[0]);
                assert(print_pairs(ps)[0] == '"');
                assert(s[1] == print_pairs(ps)[0]);
                assert(s[1] != '}');
                assert(s.drop_first() =~= print_pairs(ps) + tail);
                lemma_print_parse_pairs(ps, tail);
                assert(tail.len() > 0 && tail[0] == '}');
                assert(tail.drop_first() =~= rest);
                assert(parse_val(print_val(v) + rest) == Some((v, rest)));
            }
        },
    }
}

/// Parsing the canonical text of a nonempty element list, followed by its
/// closing bracket, yields the elements back.
proof fn lemma_print_parse_elems(es: Seq<JsonValueV>, rest: Seq<char>)
    requires
        es.len() >= 1,
        forall|t: int| 0 <= t < es.len() ==> val_wf(#[trigger] es[t]),
        rest.len() > 0,
        rest[0] != ',',
        !is_digit(rest[0]),
    ensures
        parse_elems(print_elems(es) + rest) == Some((es, rest)),
    decreases es, 1int,
{
    let s = print_elems(es) + rest;
    lemma_print_val_first(es[0]);
    if es.len() == 1 {
        assert(s =~= print_val(es[0]) + rest);
        lemma_print_parse_val(es[0], rest);
        assert(parse_val(s) == Some((es[0], rest)));
        assert(rest.len() < s.len());
        assert(seq![es[0]] =~= es);
    } else {
        let x = seq![','] + print_elems(es.drop_first()) + rest;
        assert(s =~= print_val(es[0]) + x);
        lemma_print_parse_val(es[0], x);
        assert(parse_val(s) == Some((es[0], x)));
        assert(x.len() < s.len());
        assert(x[0] == ',');
        assert(x.drop_first() =~= print_elems(es.drop_first()) + rest);
        lemma_print_parse_elems(es.drop_first(), rest);
        assert(seq![es[0]] + es.drop_first() =~= es);
    }
}

/// Parsing the canonical text of a nonempty member list, followed by its
/// closing brace, yields the members back.
proof fn lemma_print_parse_pairs(ps: Seq<(Seq<char>, JsonValueV)>, rest: Seq<char>)
    requires
        ps.len() >= 1,
        forall|t: int| 0 <= t < ps.len() ==> val_wf(#[trigger] ps[t].1),
        rest.len() > 0,
        rest[0] != ',',
        !is_digit(rest[0]),
    ensures
        parse_pairs(print_pairs(ps) + rest) == Some((ps, rest)),
    decreases ps, 1int,
{
    let s = print_pairs(ps) + rest;
    let k0 = ps[0].0;
    let v0 = ps[0].1;
    let tail: Seq<char> = if ps.len() == 1 {
        rest
    } else {
        seq![','] + print_pairs(ps.drop_first()) + rest
    };
    assert(s =~= print_str(k0) + seq![':'] + print_val(v0) + tail);
    assert(s[0] == '"');
    assert(s.drop_first() =~= escape_str(k0) + seq!['"'] + (seq![':'] + print_val(v0) + tail));
    lemma_print_parse_str_body(k0, seq![':'] + print_val(v0) + tail);
    let r1 = seq![':'] + print_val(v0) + tail;
    assert(parse_str_body(s.drop_first()) == Some((k0, r1)));
    assert(r1[0] == ':');
    let r2 = r1.drop_first();
    assert(r2 =~= print_val(v0) + tail);
    assert(r2.len() < s.len());
    lemma_print_val_first(v0);
    if ps.len() == 1 {
        lemma_print_parse_val(v0, tail);
        assert(parse_val(r2) == Some((v0, tail)));
        assert(tail.len() < r2.len());
        assert(tail[0] != ',');
        assert(seq![(k0, v0)] =~= ps);
    } else {
        assert(tail[0] == ',');
        lemma_print_parse_val(v0, tail);
        assert(parse_val(r2) == Some((v0, tail)));
        assert(tail.len() < r2.len());
        assert(tail.drop_first() =~= print_pairs(ps.drop_first()) + rest);
        lemma_print_parse_pairs(ps.drop_first(), rest);
        assert(seq![(k0, v0)] + ps.drop_first() =~= ps);
    }
}

/// The round-trip law of the canonical text form: for every well-formed
/// value model, parsing the printed text yields exactly the value.
pub proof fn lemma_text_round_trip(v: JsonValueV)
    requires
        val_wf(v),
    ensures
        parse_doc(print_val(v)) == Some(v),
{
    lemma_print_parse_val(v, Seq::empty());
    assert(print_val(v) + Seq::<char>::empty() =~= print_val(v));
}

// ------------------------------------------------------------------
// The tagged, serialized payload: the wire and persistence form of a
// value. The tag names the encoding, leaving room for alternatives
// without breaking the dispatch contract.
// ------------------------------------------------------------------

/// A serialized payload, tagged with its encoding.
#[derive(Debug)]
pub enum Encoded {
    Json(String),
}

/// Model of a tagged payload.
pub ghost enum EncodedV {
    Json(Seq<char>),
}

impl View for Encoded {
    type V = EncodedV;

    open spec fn view(&self) -> EncodedV {
        match self {
            Encoded::Json(t) => EncodedV::Json(t@),
        }
    }
}

impl DeepView for Encoded {
    type V = EncodedV;

    open spec fn deep_view(&self) -> EncodedV {
        self.view()
    }
}

/// The encoding of a value model.
pub open spec fn encode_spec(v: JsonValueV) -> EncodedV {
    EncodedV::Json(print_val(v))
}

/// The decoding of a tagged payload; `None` when the serialized form is
/// malformed.
pub open spec fn decode_spec(e: EncodedV) -> Option<JsonValueV> {
    match e {
        EncodedV::Json(t) => parse_doc(t),
    }
}

/// Encodes a value into its tagged, canonical serialized form.
pub fn encode(v: &JsonValue) -> (e: Encoded)
    ensures
        e@ == encode_spec(v.deep_view()),
{
    Encoded::Json(to_text(v))
}

/// Decodes a tagged payload back into a value.
pub fn decode(e: &Encoded) -> (r: Option<JsonValue>)
    ensures
        match r {
            Some(v) => decode_spec(e@) == Some(v.deep_view()),
            None => decode_spec(e@) is None,
        },
{
    match e {
        Encoded::Json(t) => from_text(t.as_str()),
    }
}

/// The round-trip law of the tagged encoding: decoding an encoded value
/// yields the value back.
pub proof fn lemma_encode_decode(v: JsonValueV)
    requires
        val_wf(v),
    ensures
        decode_spec(encode_spec(v)) == Some(v),
{
    lemma_text_round_trip(v);
}

} // verus!
