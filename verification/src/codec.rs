use vstd::prelude::*;
use crate::model::{ConfigDocument, DocV, Profile, ProfileV, VarKind, VarSpecV, VariableSpec,
    kind_text, kind_of_text};
use crate::text::{chars_of, string_from_chars};

verus! {

// ---------------------------------------------------------------------------
// The document's persisted form. A document is stored as one JSON object,
//
//   {"current":NAME-OR-NULL,"profiles":{NAME:[ENTRY,...],...}}
//
// with each entry {"key":K,"type":"value"|"command","value":V}. The printer
// below emits exactly this compact form; the parser reads it back, also
// accepting the standard escape forms inside strings.
// ---------------------------------------------------------------------------
/// The hexadecimal digit for `n` (lower case).
pub open spec fn hex_char(n: u32) -> char {
    if n == 0 {
        '0'
    } else if n == 1 {
        '1'
    } else if n == 2 {
        '2'
    } else if n == 3 {
        '3'
    } else if n == 4 {
        '4'
    } else if n == 5 {
        '5'
    } else if n == 6 {
        '6'
    } else if n == 7 {
        '7'
    } else if n == 8 {
        '8'
    } else if n == 9 {
        '9'
    } else if n == 10 {
        'a'
    } else if n == 11 {
        'b'
    } else if n == 12 {
        'c'
    } else if n == 13 {
        'd'
    } else if n == 14 {
        'e'
    } else {
        'f'
    }
}

/// A character that a JSON string holds unescaped.
pub open spec fn is_plain(c: char) -> bool {
    c != '"' && c != '\\' && c as u32 >= 0x20
}

/// The escape of one character inside a JSON string: itself when plain, a
/// two-character short escape for the common control characters, and the
/// six-character `\u00XX` form for the rest.
pub open spec fn esc_char(c: char) -> Seq<char> {
    let u = c as u32;
    if c == '"' {
        seq!['\\', '"']
    } else if c == '\\' {
        seq!['\\', '\\']
    } else if u == 0x08 {
        seq!['\\', 'b']
    } else if u == 0x09 {
        seq!['\\', 't']
    } else if u == 0x0a {
        seq!['\\', 'n']
    } else if u == 0x0c {
        seq!['\\', 'f']
    } else if u == 0x0d {
        seq!['\\', 'r']
    } else if u < 0x20 {
        seq!['\\', 'u', '0', '0', hex_char(u / 16), hex_char(u % 16)]
    } else {
        seq![c]
    }
}

/// The escaped body of a JSON string.
pub open spec fn esc_string(s: Seq<char>) -> Seq<char>
    decreases s.len(),
{
    if s.len() == 0 {
        Seq::empty()
    } else {
        esc_char(s[0]) + esc_string(s.skip(1))
    }
}

/// A JSON string: the escaped body between quotes.
pub open spec fn quoted(s: Seq<char>) -> Seq<char> {
    seq!['"'] + esc_string(s) + seq!['"']
}

/// The object opening together with its first key: `{"current":`.
pub open spec fn tok_doc_open() -> Seq<char> {
    seq!['{', '"', 'c', 'u', 'r', 'r', 'e', 'n', 't', '"', ':']
}

/// The second key of the document object: `,"profiles":`.
pub open spec fn tok_profiles() -> Seq<char> {
    seq![',', '"', 'p', 'r', 'o', 'f', 'i', 'l', 'e', 's', '"', ':']
}

/// The entry opening together with its first key: `{"key":`.
pub open spec fn tok_key() -> Seq<char> {
    seq!['{', '"', 'k', 'e', 'y', '"', ':']
}

/// The second key of an entry: `,"type":`.
pub open spec fn tok_type() -> Seq<char> {
    seq![',', '"', 't', 'y', 'p', 'e', '"', ':']
}

/// The third key of an entry: `,"value":`.
pub open spec fn tok_value() -> Seq<char> {
    seq![',', '"', 'v', 'a', 'l', 'u', 'e', '"', ':']
}

/// The literal `null`.
pub open spec fn tok_null() -> Seq<char> {
    seq!['n', 'u', 'l', 'l']
}

/// One persisted variable definition.
pub open spec fn json_of_var(v: VarSpecV) -> Seq<char> {
    tok_key() + quoted(v.key) + tok_type() + quoted(kind_text(v.kind)) + tok_value() + quoted(
        v.value,
    ) + seq!['}']
}

/// The second and later entries of a definition list, each behind a comma.
pub open spec fn sep_vars(vs: Seq<VarSpecV>) -> Seq<char>
    decreases vs.len(),
{
    if vs.len() == 0 {
        Seq::empty()
    } else {
        seq![','] + json_of_var(vs[0]) + sep_vars(vs.skip(1))
    }
}

/// A persisted definition list.
pub open spec fn json_of_vars(vs: Seq<VarSpecV>) -> Seq<char> {
    if vs.len() == 0 {
        seq!['[', ']']
    } else {
        seq!['['] + json_of_var(vs[0]) + sep_vars(vs.skip(1)) + seq![']']
    }
}

/// One persisted profile: its name and its definition list.
pub open spec fn json_of_pair(p: ProfileV) -> Seq<char> {
    quoted(p.name) + seq![':'] + json_of_vars(p.vars)
}

/// The second and later profiles, each behind a comma.
pub open spec fn sep_pairs(ps: Seq<ProfileV>) -> Seq<char>
    decreases ps.len(),
{
    if ps.len() == 0 {
        Seq::empty()
    } else {
        seq![','] + json_of_pair(ps[0]) + sep_pairs(ps.skip(1))
    }
}

/// The persisted profiles object.
pub open spec fn json_of_profiles(ps: Seq<ProfileV>) -> Seq<char> {
    if ps.len() == 0 {
        seq!['{', '}']
    } else {
        seq!['{'] + json_of_pair(ps[0]) + sep_pairs(ps.skip(1)) + seq!['}']
    }
}

/// The persisted current-profile field.
pub open spec fn json_of_current(c: Option<Seq<char>>) -> Seq<char> {
    match c {
        None => tok_null(),
        Some(n) => quoted(n),
    }
}

/// The persisted form of a whole document.
pub open spec fn json_of_doc(d: DocV) -> Seq<char> {
    tok_doc_open() + json_of_current(d.current) + tok_profiles() + json_of_profiles(d.profiles)
        + seq!['}']
}

/// Escaping distributes over appending one character.
proof fn lemma_esc_snoc(s: Seq<char>, c: char)
    ensures
        esc_string(s.push(c)) == esc_string(s) + esc_char(c),
    decreases s.len(),
{
    if s.len() == 0 {
        assert(s.push(c)[0] == c);
        assert(s.push(c).skip(1) =~= Seq::<char>::empty());
        assert(esc_string(Seq::<char>::empty()) =~= Seq::<char>::empty());
        assert(esc_string(s.push(c)) =~= esc_char(c) + esc_string(s.push(c).skip(1)));
        assert(esc_string(s.push(c)) =~= esc_string(s) + esc_char(c));
    } else {
        assert(s.push(c).skip(1) =~= s.skip(1).push(c));
        lemma_esc_snoc(s.skip(1), c);
        assert(esc_string(s.push(c)) =~= esc_string(s) + esc_char(c));
    }
}

/// The comma-separated tail distributes over appending one definition.
proof fn lemma_sep_vars_snoc(vs: Seq<VarSpecV>, v: VarSpecV)
    ensures
        sep_vars(vs.push(v)) == sep_vars(vs) + seq![','] + json_of_var(v),
    decreases vs.len(),
{
    if vs.len() == 0 {
        assert(vs.push(v)[0] == v);
        assert(vs.push(v).skip(1) =~= Seq::<VarSpecV>::empty());
        assert(sep_vars(Seq::<VarSpecV>::empty()) =~= Seq::<char>::empty());
        assert(sep_vars(vs.push(v)) =~= seq![','] + json_of_var(v) + sep_vars(vs.push(v).skip(1)));
        assert(sep_vars(vs.push(v)) =~= sep_vars(vs) + seq![','] + json_of_var(v));
    } else {
        assert(vs.push(v)[0] == vs[0]);
        assert(vs.push(v).skip(1) =~= vs.skip(1).push(v));
        lemma_sep_vars_snoc(vs.skip(1), v);
        assert(sep_vars(vs.push(v)) =~= sep_vars(vs) + seq![','] + json_of_var(v));
    }
}

/// The comma-separated tail distributes over appending one profile.
proof fn lemma_sep_pairs_snoc(ps: Seq<ProfileV>, p: ProfileV)
    ensures
        sep_pairs(ps.push(p)) == sep_pairs(ps) + seq![','] + json_of_pair(p),
    decreases ps.len(),
{
    if ps.len() == 0 {
        assert(ps.push(p)[0] == p);
        assert(ps.push(p).skip(1) =~= Seq::<ProfileV>::empty());
        assert(sep_pairs(Seq::<ProfileV>::empty()) =~= Seq::<char>::empty());
        assert(sep_pairs(ps.push(p)) =~= seq![','] + json_of_pair(p) + sep_pairs(
            ps.push(p).skip(1),
        ));
        assert(sep_pairs(ps.push(p)) =~= sep_pairs(ps) + seq![','] + json_of_pair(p));
    } else {
        assert(ps.push(p)[0] == ps[0]);
        assert(ps.push(p).skip(1) =~= ps.skip(1).push(p));
        lemma_sep_pairs_snoc(ps.skip(1), p);
        assert(sep_pairs(ps.push(p)) =~= sep_pairs(ps) + seq![','] + json_of_pair(p));
    }
}

/// The hexadecimal digit for `n`.
fn hex_char_exec(n: u32) -> (r: char)
    requires
        n < 16,
    ensures
        r == hex_char(n),
{
    if n == 0 {
        '0'
    } else if n == 1 {
        '1'
    } else if n == 2 {
        '2'
    } else if n == 3 {
        '3'
    } else if n == 4 {
        '4'
    } else if n == 5 {
        '5'
    } else if n == 6 {
        '6'
    } else if n == 7 {
        '7'
    } else if n == 8 {
        '8'
    } else if n == 9 {
        '9'
    } else if n == 10 {
        'a'
    } else if n == 11 {
        'b'
    } else if n == 12 {
        'c'
    } else if n == 13 {
        'd'
    } else if n == 14 {
        'e'
    } else {
        'f'
    }
}

/// Appends the escape of one character.
fn emit_esc_char(out: &mut Vec<char>, c: char)
    ensures
        final(out)@ == old(out)@ + esc_char(c),
{
    let u: u32 = c as u32;
    if c == '"' {
        out.push('\\');
        out.push('"');
    } else if c == '\\' {
        out.push('\\');
        out.push('\\');
    } else if u == 0x08 {
        out.push('\\');
        out.push('b');
    } else if u == 0x09 {
        out.push('\\');
        out.push('t');
    } else if u == 0x0a {
        out.push('\\');
        out.push('n');
    } else if u == 0x0c {
        out.push('\\');
        out.push('f');
    } else if u == 0x0d {
        out.push('\\');
        out.push('r');
    } else if u < 0x20 {
        out.push('\\');
        out.push('u');
        out.push('0');
        out.push('0');
        out.push(hex_char_exec(u / 16));
        out.push(hex_char_exec(u % 16));
    } else {
        out.push(c);
    }
    proof {
        assert(final(out)@ =~= old(out)@ + esc_char(c));
    }
}

/// Appends the quoted, escaped form of `s`.
fn emit_quoted(out: &mut Vec<char>, s: &str)
    ensures
        final(out)@ == old(out)@ + quoted(s@),
{
    let n: usize = s.unicode_len();
    out.push('"');
    let mut i: usize = 0;
    proof {
        assert(esc_string(s@.take(0)) =~= Seq::<char>::empty());
        assert(out@ =~= old(out)@ + seq!['"'] + esc_string(s@.take(0)));
    }
    while i < n
        invariant
            n == s@.len(),
            i <= n,
            out@ == old(out)@ + seq!['"'] + esc_string(s@.take(i as int)),
        decreases n - i,
    {
        let c = s.get_char(i);
        emit_esc_char(out, c);
        proof {
            assert(s@.take(i as int + 1) =~= s@.take(i as int).push(s@[i as int]));
            lemma_esc_snoc(s@.take(i as int), s@[i as int]);
            assert(out@ =~= old(out)@ + seq!['"'] + esc_string(s@.take(i as int + 1)));
        }
        i = i + 1;
    }
    out.push('"');
    proof {
        assert(s@.take(n as int) =~= s@);
        assert(out@ =~= old(out)@ + quoted(s@));
    }
}

/// Appends the persisted name of a kind, quoted.
fn emit_kind(out: &mut Vec<char>, k: VarKind)
    ensures
        final(out)@ == old(out)@ + quoted(kind_text(k)),
{
    out.push('"');
    match k {
        VarKind::Literal => {
            out.push('v');
            out.push('a');
            out.push('l');
            out.push('u');
            out.push('e');
        },
        VarKind::Command => {
            out.push('c');
            out.push('o');
            out.push('m');
            out.push('m');
            out.push('a');
            out.push('n');
            out.push('d');
        },
    }
    out.push('"');
    proof {
        lemma_esc_plain(kind_text(k));
        assert(final(out)@ =~= old(out)@ + quoted(kind_text(k)));
    }
}

/// A string of plain characters escapes to itself.
proof fn lemma_esc_plain(s: Seq<char>)
    requires
        forall|i: int| 0 <= i < s.len() ==> is_plain(s[i]),
    ensures
        esc_string(s) == s,
    decreases s.len(),
{
    if s.len() > 0 {
        assert(is_plain(s[0]));
        assert(esc_char(s[0]) =~= seq![s[0]]);
        lemma_esc_plain(s.skip(1));
        assert(esc_string(s) =~= s);
    }
}

/// Appends one persisted definition.
fn emit_var(out: &mut Vec<char>, v: &VariableSpec)
    ensures
        final(out)@ == old(out)@ + json_of_var(v@),
{
    out.push('{');
    out.push('"');
    out.push('k');
    out.push('e');
    out.push('y');
    out.push('"');
    out.push(':');
    emit_quoted(out, v.key.as_str());
    out.push(',');
    out.push('"');
    out.push('t');
    out.push('y');
    out.push('p');
    out.push('e');
    out.push('"');
    out.push(':');
    emit_kind(out, v.kind);
    out.push(',');
    out.push('"');
    out.push('v');
    out.push('a');
    out.push('l');
    out.push('u');
    out.push('e');
    out.push('"');
    out.push(':');
    emit_quoted(out, v.value.as_str());
    out.push('}');
    proof {
        assert(final(out)@ =~= old(out)@ + json_of_var(v@));
    }
}

/// Appends one persisted definition list.
#[verifier::rlimit(80)]
fn emit_vars(out: &mut Vec<char>, vs: &Vec<VariableSpec>)
    ensures
        final(out)@ == old(out)@ + json_of_vars(vs.deep_view()),
{
    out.push('[');
    if vs.len() == 0 {
        out.push(']');
        proof {
            assert(final(out)@ =~= old(out)@ + json_of_vars(vs.deep_view()));
        }
        return ;
    }
    emit_var(out, &vs[0]);
    let mut i: usize = 1;
    proof {
        assert(vs.deep_view()[0] == vs@[0]@);
        assert(sep_vars(vs.deep_view().subrange(1, 1)) =~= Seq::<char>::empty());
        assert(out@ =~= old(out)@ + seq!['['] + json_of_var(vs.deep_view()[0]) + sep_vars(
            vs.deep_view().subrange(1, 1),
        ));
    }
    while i < vs.len()
        invariant
            1 <= i <= vs@.len(),
            vs.deep_view().len() == vs@.len(),
            out@ == old(out)@ + seq!['['] + json_of_var(vs.deep_view()[0]) + sep_vars(
                vs.deep_view().subrange(1, i as int),
            ),
        decreases vs@.len() - i,
    {
        out.push(',');
        emit_var(out, &vs[i]);
        proof {
            assert(vs.deep_view()[i as int] == vs@[i as int]@);
            assert(vs.deep_view().subrange(1, i as int + 1) =~= vs.deep_view().subrange(
                1,
                i as int,
            ).push(vs.deep_view()[i as int]));
            lemma_sep_vars_snoc(vs.deep_view().subrange(1, i as int), vs.deep_view()[i as int]);
            assert(out@ =~= old(out)@ + seq!['['] + json_of_var(vs.deep_view()[0]) + sep_vars(
                vs.deep_view().subrange(1, i as int + 1),
            ));
        }
        i = i + 1;
    }
    out.push(']');
    proof {
        let dv = vs.deep_view();
        assert(dv.subrange(1, dv.len() as int) =~= dv.skip(1));
        assert(final(out)@ =~= old(out)@ + json_of_vars(dv));
    }
}

/// Appends one persisted profile.
fn emit_pair(out: &mut Vec<char>, p: &Profile)
    ensures
        final(out)@ == old(out)@ + json_of_pair(p@),
{
    emit_quoted(out, p.name.as_str());
    out.push(':');
    emit_vars(out, &p.vars);
    proof {
        assert(final(out)@ =~= old(out)@ + json_of_pair(p@));
    }
}

/// Appending one character is concatenation with a singleton.
proof fn lemma_push_is_concat(s: Seq<char>, c: char)
    ensures
        s.push(c) == s + seq![c],
{
    assert(s.push(c) =~= s + seq![c]);
}

/// The empty sequence is a right identity of concatenation.
proof fn lemma_concat_empty(s: Seq<char>)
    ensures
        s + Seq::<char>::empty() == s,
{
    assert(s + Seq::<char>::empty() =~= s);
}

/// Reassociation of a four-part concatenation around its head.
proof fn lemma_reassoc_step(x: Seq<char>, t: Seq<char>, c: Seq<char>, p: Seq<char>)
    ensures
        x + t + c + p == x + (t + c + p),
{
    assert(x + t + c + p =~= x + (t + c + p));
}

/// Reassociation of a five-part concatenation around its head.
proof fn lemma_reassoc_tail(a: Seq<char>, b: Seq<char>, c: Seq<char>, d: Seq<char>, e: Seq<char>)
    ensures
        a + b + c + d + e == a + (b + c + d + e),
{
    assert(a + b + c + d + e =~= a + (b + c + d + e));
}

/// Appends the persisted profiles object.
#[verifier::spinoff_prover]
#[verifier::rlimit(100)]
fn emit_profiles(out: &mut Vec<char>, ps: &Vec<Profile>)
    ensures
        final(out)@ == old(out)@ + json_of_profiles(ps.deep_view()),
{
    let ghost a = out@;
    out.push('{');
    proof {
        lemma_push_is_concat(a, '{');
    }
    if ps.len() == 0 {
        let ghost b = out@;
        out.push('}');
        proof {
            lemma_push_is_concat(b, '}');
            assert(ps.deep_view().len() == 0);
            assert((a + seq!['{']) + seq!['}'] =~= a + seq!['{', '}']);
        }
        return ;
    }
    emit_pair(out, &ps[0]);
    let mut i: usize = 1;
    proof {
        assert(ps.deep_view()[0] == ps@[0]@);
        assert(ps.deep_view().subrange(1, 1) =~= Seq::<ProfileV>::empty());
        assert(sep_pairs(ps.deep_view().subrange(1, 1)) == Seq::<char>::empty());
        lemma_concat_empty(a + seq!['{'] + json_of_pair(ps.deep_view()[0]));
    }
    while i < ps.len()
        invariant
            1 <= i <= ps@.len(),
            ps.deep_view().len() == ps@.len(),
            out@ == old(out)@ + seq!['{'] + json_of_pair(ps.deep_view()[0]) + sep_pairs(
                ps.deep_view().subrange(1, i as int),
            ),
        decreases ps@.len() - i,
    {
        let ghost b = out@;
        out.push(',');
        proof {
            lemma_push_is_concat(b, ',');
        }
        emit_pair(out, &ps[i]);
        proof {
            let dv = ps.deep_view();
            let t = dv.subrange(1, i as int);
            let p = dv[i as int];
            assert(dv[i as int] == ps@[i as int]@);
            assert(dv.subrange(1, i as int + 1) =~= t.push(p));
            lemma_sep_pairs_snoc(t, p);
            lemma_reassoc_step(
                old(out)@ + seq!['{'] + json_of_pair(dv[0]),
                sep_pairs(t),
                seq![','],
                json_of_pair(p),
            );
        }
        i = i + 1;
    }
    let ghost b2 = out@;
    out.push('}');
    proof {
        lemma_push_is_concat(b2, '}');
        let dv = ps.deep_view();
        assert(dv.subrange(1, dv.len() as int) =~= dv.skip(1));
        lemma_reassoc_tail(
            a,
            seq!['{'],
            json_of_pair(dv[0]),
            sep_pairs(dv.skip(1)),
            seq!['}'],
        );
    }
}

/// The persisted form of `doc`, as characters.
pub fn serialize_chars(doc: &ConfigDocument) -> (r: Vec<char>)
    ensures
        r@ == json_of_doc(doc@),
{
    let mut out: Vec<char> = Vec::new();
    out.push('{');
    out.push('"');
    out.push('c');
    out.push('u');
    out.push('r');
    out.push('r');
    out.push('e');
    out.push('n');
    out.push('t');
    out.push('"');
    out.push(':');
    proof {
        assert(out@ =~= tok_doc_open());
    }
    match &doc.current {
        None => {
            out.push('n');
            out.push('u');
            out.push('l');
            out.push('l');
        },
        Some(n) => {
            emit_quoted(&mut out, n.as_str());
        },
    }
    proof {
        assert(out@ =~= tok_doc_open() + json_of_current(doc@.current));
    }
    out.push(',');
    out.push('"');
    out.push('p');
    out.push('r');
    out.push('o');
    out.push('f');
    out.push('i');
    out.push('l');
    out.push('e');
    out.push('s');
    out.push('"');
    out.push(':');
    proof {
        assert(out@ =~= tok_doc_open() + json_of_current(doc@.current) + tok_profiles());
    }
    emit_profiles(&mut out, &doc.profiles);
    out.push('}');
    proof {
        assert(out@ =~= json_of_doc(doc@));
    }
    out
}

/// The persisted form of `doc`.
pub fn serialize_document(doc: &ConfigDocument) -> (r: String)
    ensures
        r@ == json_of_doc(doc@),
{
    let out = serialize_chars(doc);
    string_from_chars(&out)
}

// ---------------------------------------------------------------------------
// The parser. Each spec function reads one construct at a position and
// yields the parsed value and the position after it, or nothing when the
// text is malformed there; the executable functions below implement them.
// ---------------------------------------------------------------------------
/// A malformed persisted document.
#[derive(Clone, Copy, PartialEq, Eq, Structural, Debug)]
pub struct ParseError;

/// The value of a hexadecimal digit.
pub open spec fn hex_val(c: char) -> Option<u32> {
    if c == '0' {
        Some(0)
    } else if c == '1' {
        Some(1)
    } else if c == '2' {
        Some(2)
    } else if c == '3' {
        Some(3)
    } else if c == '4' {
        Some(4)
    } else if c == '5' {
        Some(5)
    } else if c == '6' {
        Some(6)
    } else if c == '7' {
        Some(7)
    } else if c == '8' {
        Some(8)
    } else if c == '9' {
        Some(9)
    } else if c == 'a' || c == 'A' {
        Some(10)
    } else if c == 'b' || c == 'B' {
        Some(11)
    } else if c == 'c' || c == 'C' {
        Some(12)
    } else if c == 'd' || c == 'D' {
        Some(13)
    } else if c == 'e' || c == 'E' {
        Some(14)
    } else if c == 'f' || c == 'F' {
        Some(15)
    } else {
        None
    }
}

/// Reads the literal `t` at `i`.
pub open spec fn sp_lit(s: Seq<char>, i: int, t: Seq<char>) -> Option<int> {
    if 0 <= i && i + t.len() <= s.len() && s.subrange(i, i + t.len()) == t {
        Some(i + t.len())
    } else {
        None
    }
}

/// Reads one string escape at `i`, after the backslash: a short escape, or
/// `\uXXXX` for a code point that is not a surrogate.
pub open spec fn sp_escape(s: Seq<char>, i: int) -> Option<(char, int)> {
    if 0 <= i && i < s.len() {
        let c = s[i];
        if c == '"' {
            Some(('"', i + 1))
        } else if c == '\\' {
            Some(('\\', i + 1))
        } else if c == '/' {
            Some(('/', i + 1))
        } else if c == 'b' {
            Some(('\u{8}', i + 1))
        } else if c == 'f' {
            Some(('\u{c}', i + 1))
        } else if c == 'n' {
            Some(('\n', i + 1))
        } else if c == 'r' {
            Some(('\r', i + 1))
        } else if c == 't' {
            Some(('\t', i + 1))
        } else if c == 'u' {
            if i + 5 <= s.len() {
                match (hex_val(s[i + 1]), hex_val(s[i + 2]), hex_val(s[i + 3]), hex_val(s[i + 4])) {
                    (Some(a), Some(b), Some(m), Some(d)) => {
                        let v = (a * 4096 + b * 256 + m * 16 + d) as u32;
                        if v < 0xD800 || v > 0xDFFF {
                            Some((v as char, i + 5))
                        } else {
                            None
                        }
                    },
                    _ => None,
                }
            } else {
                None
            }
        } else {
            None
        }
    } else {
        None
    }
}

/// Reads the rest of a string at `i`, inside the quotes, having read `acc`:
/// characters and escapes until the closing quote.
pub open spec fn sp_string_body(s: Seq<char>, i: int, acc: Seq<char>) -> Option<(Seq<char>, int)>
    decreases s.len() - i
    via sp_string_body_dec
{
    if 0 <= i && i < s.len() {
        let c = s[i];
        if c == '"' {
            Some((acc, i + 1))
        } else if c == '\\' {
            match sp_escape(s, i + 1) {
                Some((d, j)) => sp_string_body(s, j, acc.push(d)),
                None => None,
            }
        } else if (c as u32) < 0x20 {
            None
        } else {
            sp_string_body(s, i + 1, acc.push(c))
        }
    } else {
        None
    }
}

#[via_fn]
proof fn sp_string_body_dec(s: Seq<char>, i: int, acc: Seq<char>) {
    if 0 <= i && i < s.len() && s[i] == '\\' {
        assert(match sp_escape(s, i + 1) {
            Some((d, j)) => i + 1 < j <= s.len(),
            None => true,
        });
    }
}

/// Reads a quoted string at `i`.
pub open spec fn sp_string(s: Seq<char>, i: int) -> Option<(Seq<char>, int)> {
    if 0 <= i && i < s.len() && s[i] == '"' {
        sp_string_body(s, i + 1, Seq::empty())
    } else {
        None
    }
}

/// A successful string read lands strictly further on, within the text.
proof fn lemma_sp_string_body_bounds(s: Seq<char>, i: int, acc: Seq<char>)
    ensures
        match sp_string_body(s, i, acc) {
            Some((v, j)) => i < j <= s.len(),
            None => true,
        },
    decreases s.len() - i,
{
    if 0 <= i && i < s.len() {
        let c = s[i];
        if c == '\\' {
            match sp_escape(s, i + 1) {
                Some((d, j)) => {
                    lemma_sp_string_body_bounds(s, j, acc.push(d));
                },
                None => {},
            }
        } else if c != '"' && (c as u32) >= 0x20 {
            lemma_sp_string_body_bounds(s, i + 1, acc.push(c));
        }
    }
}

/// A successful string read lands strictly further on, within the text.
proof fn lemma_sp_string_bounds(s: Seq<char>, i: int)
    ensures
        match sp_string(s, i) {
            Some((v, j)) => i < j <= s.len(),
            None => true,
        },
{
    if 0 <= i && i < s.len() && s[i] == '"' {
        lemma_sp_string_body_bounds(s, i + 1, Seq::empty());
    }
}

/// Reads a variable kind at `i`: the string `"value"` or `"command"`.
pub open spec fn sp_kind(s: Seq<char>, i: int) -> Option<(VarKind, int)> {
    match sp_string(s, i) {
        Some((t, j)) => match kind_of_text(t) {
            Some(k) => Some((k, j)),
            None => None,
        },
        None => None,
    }
}

/// Reads one persisted variable definition at `i`.
pub open spec fn sp_var(s: Seq<char>, i: int) -> Option<(VarSpecV, int)> {
    match sp_lit(s, i, tok_key()) {
        Some(i1) => match sp_string(s, i1) {
            Some((k, i2)) => match sp_lit(s, i2, tok_type()) {
                Some(i3) => match sp_kind(s, i3) {
                    Some((kd, i4)) => match sp_lit(s, i4, tok_value()) {
                        Some(i5) => match sp_string(s, i5) {
                            Some((v, i6)) => match sp_lit(s, i6, seq!['}']) {
                                Some(i7) => Some(
                                    (VarSpecV { key: k, kind: kd, value: v }, i7),
                                ),
                                None => None,
                            },
                            None => None,
                        },
                        None => None,
                    },
                    None => None,
                },
                None => None,
            },
            None => None,
        },
        None => None,
    }
}

/// A successful definition read lands strictly further on, within the text.
proof fn lemma_sp_var_bounds(s: Seq<char>, i: int)
    ensures
        match sp_var(s, i) {
            Some((v, j)) => i < j <= s.len(),
            None => true,
        },
{
    if let Some(i1) = sp_lit(s, i, tok_key()) {
        lemma_sp_string_bounds(s, i1);
        if let Some((k, i2)) = sp_string(s, i1) {
            if let Some(i3) = sp_lit(s, i2, tok_type()) {
                lemma_sp_string_bounds(s, i3);
                if let Some((kd, i4)) = sp_kind(s, i3) {
                    if let Some(i5) = sp_lit(s, i4, tok_value()) {
                        lemma_sp_string_bounds(s, i5);
                    }
                }
            }
        }
    }
}

/// Reads the second and later definitions of a list at `i`, having read
/// `acc`: a closing bracket, or a comma and a definition, repeatedly.
pub open spec fn sp_vars_more(s: Seq<char>, i: int, acc: Seq<VarSpecV>) -> Option<
    (Seq<VarSpecV>, int),
>
    decreases s.len() - i
    via sp_vars_more_dec
{
    match sp_lit(s, i, seq![']']) {
        Some(j) => Some((acc, j)),
        None => match sp_lit(s, i, seq![',']) {
            Some(i1) => match sp_var(s, i1) {
                Some((v, j)) => sp_vars_more(s, j, acc.push(v)),
                None => None,
            },
            None => None,
        },
    }
}

#[via_fn]
proof fn sp_vars_more_dec(s: Seq<char>, i: int, acc: Seq<VarSpecV>) {
    if sp_lit(s, i, seq![']']) is None {
        if let Some(i1) = sp_lit(s, i, seq![',']) {
            lemma_sp_var_bounds(s, i1);
        }
    }
}

/// Reads a persisted definition list at `i`.
pub open spec fn sp_vars(s: Seq<char>, i: int) -> Option<(Seq<VarSpecV>, int)> {
    match sp_lit(s, i, seq!['[']) {
        Some(i1) => match sp_lit(s, i1, seq![']']) {
            Some(i2) => Some((Seq::empty(), i2)),
            None => match sp_var(s, i1) {
                Some((v, j)) => sp_vars_more(s, j, seq![v]),
                None => None,
            },
        },
        None => None,
    }
}

/// A successful list read lands strictly further on, within the text.
proof fn lemma_sp_vars_more_bounds(s: Seq<char>, i: int, acc: Seq<VarSpecV>)
    ensures
        match sp_vars_more(s, i, acc) {
            Some((v, j)) => i < j <= s.len(),
            None => true,
        },
    decreases s.len() - i,
{
    if sp_lit(s, i, seq![']']) is None {
        if let Some(i1) = sp_lit(s, i, seq![',']) {
            lemma_sp_var_bounds(s, i1);
            if let Some((v, j)) = sp_var(s, i1) {
                lemma_sp_vars_more_bounds(s, j, acc.push(v));
            }
        }
    }
}

/// A successful list read lands strictly further on, within the text.
proof fn lemma_sp_vars_bounds(s: Seq<char>, i: int)
    ensures
        match sp_vars(s, i) {
            Some((v, j)) => i < j <= s.len(),
            None => true,
        },
{
    if let Some(i1) = sp_lit(s, i, seq!['[']) {
        if sp_lit(s, i1, seq![']']) is None {
            lemma_sp_var_bounds(s, i1);
            if let Some((v, j)) = sp_var(s, i1) {
                lemma_sp_vars_more_bounds(s, j, seq![v]);
            }
        }
    }
}

/// Reads one persisted profile at `i`: a name and its definition list.
pub open spec fn sp_pair(s: Seq<char>, i: int) -> Option<(ProfileV, int)> {
    match sp_string(s, i) {
        Some((n, i1)) => match sp_lit(s, i1, seq![':']) {
            Some(i2) => match sp_vars(s, i2) {
                Some((vs, j)) => Some((ProfileV { name: n, vars: vs }, j)),
                None => None,
            },
            None => None,
        },
        None => None,
    }
}

/// A successful profile read lands strictly further on, within the text.
proof fn lemma_sp_pair_bounds(s: Seq<char>, i: int)
    ensures
        match sp_pair(s, i) {
            Some((p, j)) => i < j <= s.len(),
            None => true,
        },
{
    lemma_sp_string_bounds(s, i);
    if let Some((n, i1)) = sp_string(s, i) {
        if let Some(i2) = sp_lit(s, i1, seq![':']) {
            lemma_sp_vars_bounds(s, i2);
        }
    }
}

/// Reads the second and later profiles at `i`, having read `acc`.
pub open spec fn sp_pairs_more(s: Seq<char>, i: int, acc: Seq<ProfileV>) -> Option<
    (Seq<ProfileV>, int),
>
    decreases s.len() - i
    via sp_pairs_more_dec
{
    match sp_lit(s, i, seq!['}']) {
        Some(j) => Some((acc, j)),
        None => match sp_lit(s, i, seq![',']) {
            Some(i1) => match sp_pair(s, i1) {
                Some((p, j)) => sp_pairs_more(s, j, acc.push(p)),
                None => None,
            },
            None => None,
        },
    }
}

#[via_fn]
proof fn sp_pairs_more_dec(s: Seq<char>, i: int, acc: Seq<ProfileV>) {
    if sp_lit(s, i, seq!['}']) is None {
        if let Some(i1) = sp_lit(s, i, seq![',']) {
            lemma_sp_pair_bounds(s, i1);
        }
    }
}

/// Reads the persisted profiles object at `i`.
pub open spec fn sp_profiles(s: Seq<char>, i: int) -> Option<(Seq<ProfileV>, int)> {
    match sp_lit(s, i, seq!['{']) {
        Some(i1) => match sp_lit(s, i1, seq!['}']) {
            Some(i2) => Some((Seq::empty(), i2)),
            None => match sp_pair(s, i1) {
                Some((p, j)) => sp_pairs_more(s, j, seq![p]),
                None => None,
            },
        },
        None => None,
    }
}

/// Reads the current-profile field at `i`: `null` or a name.
pub open spec fn sp_current(s: Seq<char>, i: int) -> Option<(Option<Seq<char>>, int)> {
    match sp_lit(s, i, tok_null()) {
        Some(j) => Some((None, j)),
        None => match sp_string(s, i) {
            Some((n, j)) => Some((Some(n), j)),
            None => None,
        },
    }
}

/// Profile names are pairwise distinct.
pub open spec fn names_unique(ps: Seq<ProfileV>) -> bool {
    forall|i: int, j: int| 0 <= i < j < ps.len() ==> ps[i].name != ps[j].name
}

/// Reads a whole persisted document: well-formed exactly when the text is
/// one document object, read to its end, whose profile names are distinct.
pub open spec fn sp_doc(s: Seq<char>) -> Option<DocV> {
    match sp_lit(s, 0, tok_doc_open()) {
        Some(i1) => match sp_current(s, i1) {
            Some((cur, i2)) => match sp_lit(s, i2, tok_profiles()) {
                Some(i3) => match sp_profiles(s, i3) {
                    Some((ps, i4)) => match sp_lit(s, i4, seq!['}']) {
                        Some(i5) => if i5 == s.len() && names_unique(ps) {
                            Some(DocV { current: cur, profiles: ps })
                        } else {
                            None
                        },
                        None => None,
                    },
                    None => None,
                },
                None => None,
            },
            None => None,
        },
        None => None,
    }
}

/// Relies on `char::from_u32`: it yields the character with that code
/// point, and `None` exactly for surrogate code points and values beyond
/// the last plane.
pub assume_specification[ char::from_u32 ](v: u32) -> (r: Option<char>)
    ensures
        r is Some <==> (v < 0xD800 || (0xE000 <= v && v <= 0x10FFFF)),
        r matches Some(c) ==> c == v as char,
;

/// The value of a hexadecimal digit.
fn hex_val_exec(c: char) -> (r: Option<u32>)
    ensures
        r == hex_val(c),
        r matches Some(v) ==> v < 16,
{
    if c == '0' {
        Some(0)
    } else if c == '1' {
        Some(1)
    } else if c == '2' {
        Some(2)
    } else if c == '3' {
        Some(3)
    } else if c == '4' {
        Some(4)
    } else if c == '5' {
        Some(5)
    } else if c == '6' {
        Some(6)
    } else if c == '7' {
        Some(7)
    } else if c == '8' {
        Some(8)
    } else if c == '9' {
        Some(9)
    } else if c == 'a' || c == 'A' {
        Some(10)
    } else if c == 'b' || c == 'B' {
        Some(11)
    } else if c == 'c' || c == 'C' {
        Some(12)
    } else if c == 'd' || c == 'D' {
        Some(13)
    } else if c == 'e' || c == 'E' {
        Some(14)
    } else if c == 'f' || c == 'F' {
        Some(15)
    } else {
        None
    }
}

/// Reads the literal `t` at `i`.
fn p_lit(s: &Vec<char>, i: usize, t: &Vec<char>) -> (r: Option<usize>)
    requires
        i <= s@.len(),
    ensures
        match r {
            Some(j) => sp_lit(s@, i as int, t@) == Some(j as int) && i <= j <= s@.len(),
            None => sp_lit(s@, i as int, t@) is None,
        },
{
    if t.len() > s.len() - i {
        return None;
    }
    let n: usize = s.len();
    let mut j: usize = 0;
    while j < t.len()
        invariant
            n == s@.len(),
            i + t@.len() <= s@.len(),
            j <= t@.len(),
            forall|k: int| 0 <= k < j ==> s@[i + k] == t@[k],
        decreases t@.len() - j,
    {
        if s[i + j] != t[j] {
            proof {
                let sub = s@.subrange(i as int, i as int + t@.len() as int);
                assert(sub[j as int] == s@[i + j]);
                assert(sub != t@);
            }
            return None;
        }
        j = j + 1;
    }
    proof {
        assert(s@.subrange(i as int, i as int + t@.len() as int) =~= t@);
    }
    Some(i + t.len())
}

/// Reads one character at `i`.
fn p_char(s: &Vec<char>, i: usize, c: char) -> (r: Option<usize>)
    requires
        i <= s@.len(),
    ensures
        match r {
            Some(j) => sp_lit(s@, i as int, seq![c]) == Some(j as int) && j == i + 1 && j
                <= s@.len(),
            None => sp_lit(s@, i as int, seq![c]) is None,
        },
{
    if i < s.len() && s[i] == c {
        proof {
            assert(s@.subrange(i as int, i as int + 1) =~= seq![c]);
        }
        Some(i + 1)
    } else {
        proof {
            if i < s@.len() {
                let sub = s@.subrange(i as int, i as int + 1);
                assert(sub[0] == s@[i as int]);
                assert(sub != seq![c]);
            }
        }
        None
    }
}

/// Reads one string escape at `i`, after the backslash.
fn p_escape(s: &Vec<char>, i: usize) -> (r: Option<(char, usize)>)
    requires
        i <= s@.len(),
    ensures
        match r {
            Some((c, j)) => sp_escape(s@, i as int) == Some((c, j as int)) && i < j <= s@.len(),
            None => sp_escape(s@, i as int) is None,
        },
{
    if i >= s.len() {
        return None;
    }
    let c = s[i];
    if c == '"' {
        Some(('"', i + 1))
    } else if c == '\\' {
        Some(('\\', i + 1))
    } else if c == '/' {
        Some(('/', i + 1))
    } else if c == 'b' {
        Some(('\u{8}', i + 1))
    } else if c == 'f' {
        Some(('\u{c}', i + 1))
    } else if c == 'n' {
        Some(('\n', i + 1))
    } else if c == 'r' {
        Some(('\r', i + 1))
    } else if c == 't' {
        Some(('\t', i + 1))
    } else if c == 'u' {
        if s.len() - i < 5 {
            return None;
        }
        let h1 = hex_val_exec(s[i + 1]);
        let h2 = hex_val_exec(s[i + 2]);
        let h3 = hex_val_exec(s[i + 3]);
        let h4 = hex_val_exec(s[i + 4]);
        match (h1, h2, h3, h4) {
            (Some(a), Some(b), Some(m), Some(d)) => {
                let v: u32 = a * 4096 + b * 256 + m * 16 + d;
                if 0xD800 <= v && v <= 0xDFFF {
                    None
                } else {
                    match char::from_u32(v) {
                        Some(ch) => Some((ch, i + 5)),
                        None => vstd::pervasive::unreached(),
                    }
                }
            },
            _ => None,
        }
    } else {
        None
    }
}

/// Reads a quoted string at `i`.
fn p_string(s: &Vec<char>, i: usize) -> (r: Option<(String, usize)>)
    requires
        i <= s@.len(),
    ensures
        match r {
            Some((v, j)) => sp_string(s@, i as int) == Some((v@, j as int)) && i < j <= s@.len(),
            None => sp_string(s@, i as int) is None,
        },
{
    if i >= s.len() || s[i] != '"' {
        return None;
    }
    let mut cur: usize = i + 1;
    let mut acc: Vec<char> = Vec::new();
    proof {
        assert(acc@ =~= Seq::<char>::empty());
    }
    loop
        invariant
            i < s@.len(),
            s@[i as int] == '"',
            i < cur <= s@.len(),
            sp_string_body(s@, i as int + 1, Seq::empty()) == sp_string_body(
                s@,
                cur as int,
                acc@,
            ),
        decreases s@.len() - cur,
    {
        if cur >= s.len() {
            return None;
        }
        let c = s[cur];
        if c == '"' {
            proof {
                assert(sp_string_body(s@, cur as int, acc@) == Some((acc@, cur as int + 1)));
            }
            let st = string_from_chars(&acc);
            return Some((st, cur + 1));
        } else if c == '\\' {
            match p_escape(s, cur + 1) {
                Some((d, j)) => {
                    proof {
                        assert(sp_string_body(s@, cur as int, acc@) == sp_string_body(
                            s@,
                            j as int,
                            acc@.push(d),
                        ));
                    }
                    acc.push(d);
                    cur = j;
                },
                None => {
                    return None;
                },
            }
        } else if (c as u32) < 0x20 {
            return None;
        } else {
            proof {
                assert(sp_string_body(s@, cur as int, acc@) == sp_string_body(
                    s@,
                    cur as int + 1,
                    acc@.push(c),
                ));
            }
            acc.push(c);
            cur = cur + 1;
        }
    }
}

/// Reads a variable kind at `i`.
fn p_kind(s: &Vec<char>, i: usize) -> (r: Option<(VarKind, usize)>)
    requires
        i <= s@.len(),
    ensures
        match r {
            Some((k, j)) => sp_kind(s@, i as int) == Some((k, j as int)) && i < j <= s@.len(),
            None => sp_kind(s@, i as int) is None,
        },
{
    match p_string(s, i) {
        Some((t, j)) => match crate::model::parse_kind(t.as_str()) {
            Some(k) => Some((k, j)),
            None => None,
        },
        None => None,
    }
}

/// Reads one persisted variable definition at `i`.
fn p_var(s: &Vec<char>, i: usize) -> (r: Option<(VariableSpec, usize)>)
    requires
        i <= s@.len(),
    ensures
        match r {
            Some((v, j)) => sp_var(s@, i as int) == Some((v@, j as int)) && i < j <= s@.len(),
            None => sp_var(s@, i as int) is None,
        },
{
    let tk = tok_key_vec();
    let i1 = match p_lit(s, i, &tk) {
        Some(x) => x,
        None => {
            return None;
        },
    };
    let (key, i2) = match p_string(s, i1) {
        Some(x) => x,
        None => {
            return None;
        },
    };
    let tt = tok_type_vec();
    let i3 = match p_lit(s, i2, &tt) {
        Some(x) => x,
        None => {
            return None;
        },
    };
    let (kind, i4) = match p_kind(s, i3) {
        Some(x) => x,
        None => {
            return None;
        },
    };
    let tv = tok_value_vec();
    let i5 = match p_lit(s, i4, &tv) {
        Some(x) => x,
        None => {
            return None;
        },
    };
    let (value, i6) = match p_string(s, i5) {
        Some(x) => x,
        None => {
            return None;
        },
    };
    let i7 = match p_char(s, i6, '}') {
        Some(x) => x,
        None => {
            return None;
        },
    };
    Some((VariableSpec { key, kind, value }, i7))
}

/// Reads a persisted definition list at `i`.
fn p_vars(s: &Vec<char>, i: usize) -> (r: Option<(Vec<VariableSpec>, usize)>)
    requires
        i <= s@.len(),
    ensures
        match r {
            Some((vs, j)) => sp_vars(s@, i as int) == Some((vs.deep_view(), j as int)) && i < j
                <= s@.len(),
            None => sp_vars(s@, i as int) is None,
        },
{
    let i1 = match p_char(s, i, '[') {
        Some(x) => x,
        None => {
            return None;
        },
    };
    if let Some(i2) = p_char(s, i1, ']') {
        let vs: Vec<VariableSpec> = Vec::new();
        proof {
            assert(vs.deep_view() =~= Seq::<VarSpecV>::empty());
        }
        return Some((vs, i2));
    }
    let (v0, j0) = match p_var(s, i1) {
        Some(x) => x,
        None => {
            return None;
        },
    };
    let mut acc: Vec<VariableSpec> = Vec::new();
    let ghost v0v = v0@;
    acc.push(v0);
    let mut cur: usize = j0;
    proof {
        assert(acc.deep_view() =~= seq![v0v]);
    }
    loop
        invariant
            i < cur <= s@.len(),
            acc@.len() == acc.deep_view().len(),
            sp_vars(s@, i as int) == sp_vars_more(s@, cur as int, acc.deep_view()),
        decreases s@.len() - cur,
    {
        if let Some(j) = p_char(s, cur, ']') {
            proof {
                assert(sp_vars_more(s@, cur as int, acc.deep_view()) == Some(
                    (acc.deep_view(), j as int),
                ));
            }
            return Some((acc, j));
        }
        let c1 = match p_char(s, cur, ',') {
            Some(x) => x,
            None => {
                return None;
            },
        };
        let (v, j) = match p_var(s, c1) {
            Some(x) => x,
            None => {
                return None;
            },
        };
        let ghost avold = acc@;
        let ghost dvold = acc.deep_view();
        let ghost vv = v@;
        acc.push(v);
        proof {
            assert forall|k: int| 0 <= k < acc@.len() implies acc.deep_view()[k] == dvold.push(
                vv,
            )[k] by {
                assert(acc.deep_view()[k] == acc@[k].deep_view());
                if k < dvold.len() {
                    assert(acc@[k] == avold[k]);
                    assert(dvold[k] == avold[k].deep_view());
                } else {
                    assert(acc@[k] == v);
                }
            }
            assert(acc.deep_view() =~= dvold.push(vv));
        }
        cur = j;
    }
}

/// Reads one persisted profile at `i`.
fn p_pair(s: &Vec<char>, i: usize) -> (r: Option<(Profile, usize)>)
    requires
        i <= s@.len(),
    ensures
        match r {
            Some((p, j)) => sp_pair(s@, i as int) == Some((p@, j as int)) && i < j <= s@.len(),
            None => sp_pair(s@, i as int) is None,
        },
{
    let (name, i1) = match p_string(s, i) {
        Some(x) => x,
        None => {
            return None;
        },
    };
    let i2 = match p_char(s, i1, ':') {
        Some(x) => x,
        None => {
            return None;
        },
    };
    let (vars, j) = match p_vars(s, i2) {
        Some(x) => x,
        None => {
            return None;
        },
    };
    Some((Profile { name, vars }, j))
}

/// Reads the persisted profiles object at `i`.
fn p_profiles(s: &Vec<char>, i: usize) -> (r: Option<(Vec<Profile>, usize)>)
    requires
        i <= s@.len(),
    ensures
        match r {
            Some((ps, j)) => sp_profiles(s@, i as int) == Some((ps.deep_view(), j as int)) && i
                < j <= s@.len(),
            None => sp_profiles(s@, i as int) is None,
        },
{
    let i1 = match p_char(s, i, '{') {
        Some(x) => x,
        None => {
            return None;
        },
    };
    if let Some(i2) = p_char(s, i1, '}') {
        let ps: Vec<Profile> = Vec::new();
        proof {
            assert(ps.deep_view() =~= Seq::<ProfileV>::empty());
        }
        return Some((ps, i2));
    }
    let (p0, j0) = match p_pair(s, i1) {
        Some(x) => x,
        None => {
            return None;
        },
    };
    let mut acc: Vec<Profile> = Vec::new();
    let ghost p0v = p0@;
    acc.push(p0);
    let mut cur: usize = j0;
    proof {
        assert(acc.deep_view() =~= seq![p0v]);
    }
    loop
        invariant
            i < cur <= s@.len(),
            acc@.len() == acc.deep_view().len(),
            sp_profiles(s@, i as int) == sp_pairs_more(s@, cur as int, acc.deep_view()),
        decreases s@.len() - cur,
    {
        if let Some(j) = p_char(s, cur, '}') {
            proof {
                assert(sp_pairs_more(s@, cur as int, acc.deep_view()) == Some(
                    (acc.deep_view(), j as int),
                ));
            }
            return Some((acc, j));
        }
        let c1 = match p_char(s, cur, ',') {
            Some(x) => x,
            None => {
                return None;
            },
        };
        let (p, j) = match p_pair(s, c1) {
            Some(x) => x,
            None => {
                return None;
            },
        };
        let ghost avold = acc@;
        let ghost dvold = acc.deep_view();
        let ghost pv = p@;
        acc.push(p);
        proof {
            assert forall|k: int| 0 <= k < acc@.len() implies acc.deep_view()[k] == dvold.push(
                pv,
            )[k] by {
                assert(acc.deep_view()[k] == acc@[k].deep_view());
                if k < dvold.len() {
                    assert(acc@[k] == avold[k]);
                    assert(dvold[k] == avold[k].deep_view());
                } else {
                    assert(acc@[k] == p);
                }
            }
            assert(acc.deep_view() =~= dvold.push(pv));
        }
        cur = j;
    }
}

/// Whether the profile names are pairwise distinct.
fn check_unique(ps: &Vec<Profile>) -> (r: bool)
    ensures
        r == names_unique(ps.deep_view()),
{
    let mut i: usize = 0;
    while i < ps.len()
        invariant
            i <= ps@.len(),
            ps.deep_view().len() == ps@.len(),
            forall|k: int, l: int|
                0 <= k < l < ps@.len() && k < i ==> ps.deep_view()[k].name != ps.deep_view()[
                    l
                ].name,
        decreases ps@.len() - i,
    {
        let mut j: usize = i + 1;
        while j < ps.len()
            invariant
                i < j <= ps@.len() || (i + 1 == j && j > ps@.len()),
                i < ps@.len(),
                ps.deep_view().len() == ps@.len(),
                forall|l: int| i < l < j ==> ps.deep_view()[i as int].name != ps.deep_view()[
                    l
                ].name,
            decreases ps@.len() - j,
        {
            if ps[i].name.eq(&ps[j].name) {
                proof {
                    assert(ps.deep_view()[i as int] == ps@[i as int]@);
                    assert(ps.deep_view()[j as int] == ps@[j as int]@);
                }
                return false;
            }
            proof {
                assert(ps.deep_view()[j as int] == ps@[j as int]@);
                assert(ps.deep_view()[i as int] == ps@[i as int]@);
            }
            j = j + 1;
        }
        i = i + 1;
    }
    true
}

/// Reads a whole persisted document from characters.
fn p_doc(s: &Vec<char>) -> (r: Option<ConfigDocument>)
    ensures
        match r {
            Some(d) => sp_doc(s@) == Some(d@) && d@.wf(),
            None => sp_doc(s@) is None,
        },
{
    let td = tok_doc_open_vec();
    let i1 = match p_lit(s, 0, &td) {
        Some(x) => x,
        None => {
            return None;
        },
    };
    let tn = tok_null_vec();
    let (current, i2): (Option<String>, usize) = match p_lit(s, i1, &tn) {
        Some(j) => (None, j),
        None => match p_string(s, i1) {
            Some((n, j)) => (Some(n), j),
            None => {
                return None;
            },
        },
    };
    let tp = tok_profiles_vec();
    let i3 = match p_lit(s, i2, &tp) {
        Some(x) => x,
        None => {
            return None;
        },
    };
    let (profiles, i4) = match p_profiles(s, i3) {
        Some(x) => x,
        None => {
            return None;
        },
    };
    let i5 = match p_char(s, i4, '}') {
        Some(x) => x,
        None => {
            return None;
        },
    };
    if i5 != s.len() {
        return None;
    }
    if !check_unique(&profiles) {
        return None;
    }
    let d = ConfigDocument { current, profiles };
    proof {
        assert(d@.current == match current {
            Some(n) => Some(n@),
            None => None::<Seq<char>>,
        });
    }
    Some(d)
}

/// Reads a whole persisted document. Succeeds exactly on one well-formed
/// document object, read to its end; the result's profile names are
/// pairwise distinct.
pub fn parse_document(s: &str) -> (r: Result<ConfigDocument, ParseError>)
    ensures
        match r {
            Ok(d) => sp_doc(s@) == Some(d@) && d@.wf(),
            Err(_) => sp_doc(s@) is None,
        },
{
    let cs = chars_of(s);
    match p_doc(&cs) {
        Some(d) => Ok(d),
        None => Err(ParseError),
    }
}

/// The object opening with its first key, as characters.
fn tok_doc_open_vec() -> (r: Vec<char>)
    ensures
        r@ == tok_doc_open(),
{
    let mut t: Vec<char> = Vec::new();
    t.push('{');
    t.push('"');
    t.push('c');
    t.push('u');
    t.push('r');
    t.push('r');
    t.push('e');
    t.push('n');
    t.push('t');
    t.push('"');
    t.push(':');
    proof {
        assert(t@ =~= tok_doc_open());
    }
    t
}

/// The second key of the document object, as characters.
fn tok_profiles_vec() -> (r: Vec<char>)
    ensures
        r@ == tok_profiles(),
{
    let mut t: Vec<char> = Vec::new();
    t.push(',');
    t.push('"');
    t.push('p');
    t.push('r');
    t.push('o');
    t.push('f');
    t.push('i');
    t.push('l');
    t.push('e');
    t.push('s');
    t.push('"');
    t.push(':');
    proof {
        assert(t@ =~= tok_profiles());
    }
    t
}

/// The entry opening with its first key, as characters.
fn tok_key_vec() -> (r: Vec<char>)
    ensures
        r@ == tok_key(),
{
    let mut t: Vec<char> = Vec::new();
    t.push('{');
    t.push('"');
    t.push('k');
    t.push('e');
    t.push('y');
    t.push('"');
    t.push(':');
    proof {
        assert(t@ =~= tok_key());
    }
    t
}

/// The second key of an entry, as characters.
fn tok_type_vec() -> (r: Vec<char>)
    ensures
        r@ == tok_type(),
{
    let mut t: Vec<char> = Vec::new();
    t.push(',');
    t.push('"');
    t.push('t');
    t.push('y');
    t.push('p');
    t.push('e');
    t.push('"');
    t.push(':');
    proof {
        assert(t@ =~= tok_type());
    }
    t
}

/// The third key of an entry, as characters.
fn tok_value_vec() -> (r: Vec<char>)
    ensures
        r@ == tok_value(),
{
    let mut t: Vec<char> = Vec::new();
    t.push(',');
    t.push('"');
    t.push('v');
    t.push('a');
    t.push('l');
    t.push('u');
    t.push('e');
    t.push('"');
    t.push(':');
    proof {
        assert(t@ =~= tok_value());
    }
    t
}

/// The literal `null`, as characters.
fn tok_null_vec() -> (r: Vec<char>)
    ensures
        r@ == tok_null(),
{
    let mut t: Vec<char> = Vec::new();
    t.push('n');
    t.push('u');
    t.push('l');
    t.push('l');
    proof {
        assert(t@ =~= tok_null());
    }
    t
}

// ---------------------------------------------------------------------------
// The round trip: parsing a serialized document yields that document. The
// lemmas walk the grammar, one construct each.
// ---------------------------------------------------------------------------
/// A slice that is a concatenation splits into slices of the two parts.
proof fn lemma_subrange_concat(s: Seq<char>, i: int, a: Seq<char>, b: Seq<char>)
    requires
        0 <= i,
        i + a.len() + b.len() <= s.len(),
        s.subrange(i, i + a.len() + b.len()) == a + b,
    ensures
        s.subrange(i, i + a.len()) == a,
        s.subrange(i + a.len(), i + a.len() + b.len()) == b,
{
    let whole = s.subrange(i, i + a.len() + b.len());
    assert forall|k: int| 0 <= k < a.len() implies s.subrange(i, i + a.len())[k] == a[k] by {
        assert(whole[k] == s[i + k]);
        assert(whole[k] == (a + b)[k]);
        assert(s.subrange(i, i + a.len())[k] == s[i + k]);
    }
    assert(s.subrange(i, i + a.len()) =~= a);
    assert forall|k: int| 0 <= k < b.len() implies s.subrange(
        i + a.len(),
        i + a.len() + b.len(),
    )[k] == b[k] by {
        assert(whole[a.len() + k] == s[i + a.len() + k]);
        assert(whole[a.len() + k] == (a + b)[a.len() + k]);
        assert(s.subrange(i + a.len(), i + a.len() + b.len())[k] == s[i + a.len() + k]);
    }
    assert(s.subrange(i + a.len(), i + a.len() + b.len()) =~= b);
}

/// A hexadecimal digit reads back as its value.
proof fn lemma_hex_round(n: u32)
    requires
        n < 16,
    ensures
        hex_val(hex_char(n)) == Some(n),
{
}

/// Reading a serialized string body, up to its closing quote, appends the
/// string's characters to the accumulator.
#[verifier::spinoff_prover]
#[verifier::rlimit(100)]
proof fn lemma_sp_string_body_round(s: Seq<char>, i: int, v: Seq<char>, acc: Seq<char>)
    requires
        0 <= i,
        i + esc_string(v).len() + 1 <= s.len(),
        s.subrange(i, i + esc_string(v).len()) == esc_string(v),
        s[i + esc_string(v).len()] == '"',
    ensures
        sp_string_body(s, i, acc) == Some((acc + v, i + esc_string(v).len() + 1)),
    decreases v.len(),
{
    if v.len() == 0 {
        assert(s[i] == '"');
        assert(acc + v =~= acc);
    } else {
        let c = v[0];
        let e = esc_char(c);
        let v2 = v.skip(1);
        let r = esc_string(v2);
        assert(esc_string(v) == e + r);
        lemma_subrange_concat(s, i, e, r);
        let i2 = i + e.len();
        assert(s.subrange(i, i + e.len()) == e);
        assert forall|k: int| 0 <= k < e.len() implies s[i + k] == e[k] by {
            assert(s.subrange(i, i + e.len())[k] == s[i + k]);
        }
        let u = c as u32;
        if c == '"' || c == '\\' || u == 0x08 || u == 0x09 || u == 0x0a || u == 0x0c || u
            == 0x0d {
            assert(s[i] == e[0]);
            assert(s[i + 1] == e[1]);
            assert(s[i] == '\\');
            vstd::utf8::char_u32_cast(c, u);
            if u == 0x08 {
                assert('\u{8}' as u32 == 8);
                vstd::utf8::char_u32_cast('\u{8}', 0x08);
            } else if u == 0x09 {
                assert('\t' as u32 == 9);
                vstd::utf8::char_u32_cast('\t', 0x09);
            } else if u == 0x0a {
                assert('\n' as u32 == 10);
                vstd::utf8::char_u32_cast('\n', 0x0a);
            } else if u == 0x0c {
                assert('\u{c}' as u32 == 12);
                vstd::utf8::char_u32_cast('\u{c}', 0x0c);
            } else if u == 0x0d {
                assert('\r' as u32 == 13);
                vstd::utf8::char_u32_cast('\r', 0x0d);
            }
            assert(sp_escape(s, i + 1) == Some((c, i + 2)));
            assert(sp_string_body(s, i, acc) == sp_string_body(s, i + 2, acc.push(c)));
            lemma_sp_string_body_round(s, i2, v2, acc.push(c));
            assert(acc.push(c) + v2 =~= acc + v);
        } else if u < 0x20 {
            assert(s[i] == e[0] && s[i + 1] == e[1] && s[i + 2] == e[2] && s[i + 3] == e[3]
                && s[i + 4] == e[4] && s[i + 5] == e[5]);
            assert(s[i] == '\\');
            assert(s[i + 1] == 'u');
            assert(s[i + 2] == '0');
            assert(s[i + 3] == '0');
            assert(s[i + 4] == hex_char(u / 16));
            assert(s[i + 5] == hex_char(u % 16));
            assert(u / 16 < 16 && u % 16 < 16) by (nonlinear_arith)
                requires u < 0x20;
            lemma_hex_round(u / 16);
            lemma_hex_round(u % 16);
            assert(hex_val('0') == Some(0u32));
            assert((u / 16) * 16 + u % 16 == u) by (nonlinear_arith);
            vstd::utf8::char_u32_cast(c, u);
            assert(u < 0xD800);
            assert(sp_escape(s, i + 1) == Some((c, i + 6)));
            assert(sp_string_body(s, i, acc) == sp_string_body(s, i + 6, acc.push(c)));
            lemma_sp_string_body_round(s, i2, v2, acc.push(c));
            assert(acc.push(c) + v2 =~= acc + v);
        } else {
            assert(e == seq![c]);
            assert(s[i] == e[0]);
            assert(s[i] == c);
            assert(is_plain(c));
            assert(sp_string_body(s, i, acc) == sp_string_body(s, i + 1, acc.push(c)));
            lemma_sp_string_body_round(s, i2, v2, acc.push(c));
            assert(acc.push(c) + v2 =~= acc + v);
        }
    }
}

/// Reading a serialized string yields the string.
#[verifier::spinoff_prover]
#[verifier::rlimit(100)]
proof fn lemma_sp_string_round(s: Seq<char>, i: int, v: Seq<char>)
    requires
        0 <= i,
        i + quoted(v).len() <= s.len(),
        s.subrange(i, i + quoted(v).len()) == quoted(v),
    ensures
        sp_string(s, i) == Some((v, i + quoted(v).len())),
{
    let e = esc_string(v);
    lemma_subrange_concat(s, i, seq!['"'] + e, seq!['"']);
    lemma_subrange_concat(s, i, seq!['"'], e);
    assert(s.subrange(i, i + 1) == seq!['"']);
    assert(s.subrange(i, i + 1)[0] == s[i]);
    assert(s[i] == '"');
    assert(s.subrange(i + 1, i + 1 + e.len()) == e);
    assert(s.subrange(i + 1 + e.len(), i + 2 + e.len())[0] == s[i + 1 + e.len()]);
    assert(s[i + 1 + e.len()] == '"');
    lemma_sp_string_body_round(s, i + 1, v, Seq::empty());
    assert(Seq::empty() + v =~= v);
}

/// Reading a serialized literal lands right after it.
proof fn lemma_sp_lit_round(s: Seq<char>, i: int, t: Seq<char>)
    requires
        0 <= i,
        i + t.len() <= s.len(),
        s.subrange(i, i + t.len()) == t,
    ensures
        sp_lit(s, i, t) == Some(i + t.len()),
{
}

/// The persisted kind names read back as their kinds.
proof fn lemma_kind_text_round(k: VarKind)
    ensures
        kind_of_text(kind_text(k)) == Some(k),
{
    assert(kind_text(VarKind::Literal).len() == 5);
    assert(kind_text(VarKind::Command).len() == 7);
}

/// Reading a serialized definition yields the definition.
#[verifier::spinoff_prover]
#[verifier::rlimit(100)]
proof fn lemma_sp_var_round(s: Seq<char>, i: int, v: VarSpecV)
    requires
        0 <= i,
        i + json_of_var(v).len() <= s.len(),
        s.subrange(i, i + json_of_var(v).len()) == json_of_var(v),
    ensures
        sp_var(s, i) == Some((v, i + json_of_var(v).len())),
{
    let a1 = tok_key();
    let q1 = quoted(v.key);
    let a2 = tok_type();
    let q2 = quoted(kind_text(v.kind));
    let a3 = tok_value();
    let q3 = quoted(v.value);
    lemma_subrange_concat(s, i, a1 + q1 + a2 + q2 + a3 + q3, seq!['}']);
    lemma_subrange_concat(s, i, a1 + q1 + a2 + q2 + a3, q3);
    lemma_subrange_concat(s, i, a1 + q1 + a2 + q2, a3);
    lemma_subrange_concat(s, i, a1 + q1 + a2, q2);
    lemma_subrange_concat(s, i, a1 + q1, a2);
    lemma_subrange_concat(s, i, a1, q1);
    let i1 = i + a1.len();
    let i2 = i1 + q1.len();
    let i3 = i2 + a2.len();
    let i4 = i3 + q2.len();
    let i5 = i4 + a3.len();
    let i6 = i5 + q3.len();
    lemma_sp_lit_round(s, i, a1);
    lemma_sp_string_round(s, i1, v.key);
    lemma_sp_lit_round(s, i2, a2);
    lemma_sp_string_round(s, i3, kind_text(v.kind));
    lemma_kind_text_round(v.kind);
    assert(sp_kind(s, i3) == Some((v.kind, i4)));
    lemma_sp_lit_round(s, i4, a3);
    lemma_sp_string_round(s, i5, v.value);
    assert(s.subrange(i6, i6 + 1) == seq!['}']);
    lemma_sp_lit_round(s, i6, seq!['}']);
    assert(v == VarSpecV { key: v.key, kind: v.kind, value: v.value });
}

/// Reading the serialized tail of a definition list appends its entries.
#[verifier::spinoff_prover]
#[verifier::rlimit(100)]
proof fn lemma_sp_vars_more_round(s: Seq<char>, i: int, rest: Seq<VarSpecV>, acc: Seq<VarSpecV>)
    requires
        0 <= i,
        i + sep_vars(rest).len() + 1 <= s.len(),
        s.subrange(i, i + sep_vars(rest).len()) == sep_vars(rest),
        s[i + sep_vars(rest).len()] == ']',
    ensures
        sp_vars_more(s, i, acc) == Some((acc + rest, i + sep_vars(rest).len() + 1)),
    decreases rest.len(),
{
    if rest.len() == 0 {
        assert(s[i] == ']');
        assert(s.subrange(i, i + 1) =~= seq![']']);
        lemma_sp_lit_round(s, i, seq![']']);
        assert(acc + rest =~= acc);
    } else {
        let jv = json_of_var(rest[0]);
        let tail = sep_vars(rest.skip(1));
        assert(sep_vars(rest) == seq![','] + jv + tail);
        lemma_subrange_concat(s, i, seq![','] + jv, tail);
        lemma_subrange_concat(s, i, seq![','], jv);
        assert(s.subrange(i, i + 1) == seq![',']);
        assert(s.subrange(i, i + 1)[0] == s[i]);
        assert(s[i] == ',');
        assert(sp_lit(s, i, seq![']']) is None) by {
            if i + 1 <= s.len() && s.subrange(i, i + 1) == seq![']'] {
                assert(s.subrange(i, i + 1)[0] == s[i]);
                assert(s[i] == ']');
                assert(false);
            }
        }
        lemma_sp_lit_round(s, i, seq![',']);
        lemma_sp_var_round(s, i + 1, rest[0]);
        lemma_sp_vars_more_round(s, i + 1 + jv.len(), rest.skip(1), acc.push(rest[0]));
        assert(acc.push(rest[0]) + rest.skip(1) =~= acc + rest);
    }
}

/// Reading a serialized definition list yields the list.
#[verifier::spinoff_prover]
#[verifier::rlimit(100)]
proof fn lemma_sp_vars_round(s: Seq<char>, i: int, vs: Seq<VarSpecV>)
    requires
        0 <= i,
        i + json_of_vars(vs).len() <= s.len(),
        s.subrange(i, i + json_of_vars(vs).len()) == json_of_vars(vs),
    ensures
        sp_vars(s, i) == Some((vs, i + json_of_vars(vs).len())),
{
    if vs.len() == 0 {
        assert(json_of_vars(vs) == seq!['[', ']']);
        assert(s.subrange(i, i + 2)[0] == s[i]);
        assert(s.subrange(i, i + 2)[1] == s[i + 1]);
        assert(s[i] == '[' && s[i + 1] == ']');
        assert(s.subrange(i, i + 1) =~= seq!['[']);
        lemma_sp_lit_round(s, i, seq!['[']);
        assert(s.subrange(i + 1, i + 2) =~= seq![']']);
        lemma_sp_lit_round(s, i + 1, seq![']']);
        assert(vs =~= Seq::<VarSpecV>::empty());
    } else {
        let jv = json_of_var(vs[0]);
        let tail = sep_vars(vs.skip(1));
        assert(json_of_vars(vs) == seq!['['] + jv + tail + seq![']']);
        lemma_subrange_concat(s, i, seq!['['] + jv + tail, seq![']']);
        lemma_subrange_concat(s, i, seq!['['] + jv, tail);
        lemma_subrange_concat(s, i, seq!['['], jv);
        assert(s.subrange(i, i + 1) == seq!['[']);
        assert(s.subrange(i, i + 1)[0] == s[i]);
        assert(s[i] == '[');
        lemma_sp_lit_round(s, i, seq!['[']);
        assert(jv.len() >= 7) by {
            assert(jv == tok_key() + quoted(vs[0].key) + tok_type() + quoted(
                kind_text(vs[0].kind),
            ) + tok_value() + quoted(vs[0].value) + seq!['}']);
        }
        assert(s.subrange(i + 1, i + 1 + jv.len())[0] == s[i + 1]);
        assert(jv[0] == '{');
        assert(s[i + 1] == '{');
        assert(sp_lit(s, i + 1, seq![']']) is None) by {
            if i + 2 <= s.len() && s.subrange(i + 1, i + 2) == seq![']'] {
                assert(s.subrange(i + 1, i + 2)[0] == s[i + 1]);
                assert(s[i + 1] == ']');
                assert(false);
            }
        }
        lemma_sp_var_round(s, i + 1, vs[0]);
        let j = i + 1 + jv.len();
        assert(s.subrange(j, j + tail.len()) == tail);
        assert(s.subrange(i + 1 + jv.len() + tail.len(), i + json_of_vars(vs).len())[0] == s[j
            + tail.len()]);
        assert(s[j + tail.len()] == ']');
        lemma_sp_vars_more_round(s, j, vs.skip(1), seq![vs[0]]);
        assert(seq![vs[0]] + vs.skip(1) =~= vs);
    }
}

/// Reading a serialized profile yields the profile.
#[verifier::spinoff_prover]
#[verifier::rlimit(100)]
proof fn lemma_sp_pair_round(s: Seq<char>, i: int, p: ProfileV)
    requires
        0 <= i,
        i + json_of_pair(p).len() <= s.len(),
        s.subrange(i, i + json_of_pair(p).len()) == json_of_pair(p),
    ensures
        sp_pair(s, i) == Some((p, i + json_of_pair(p).len())),
{
    let q = quoted(p.name);
    let jv = json_of_vars(p.vars);
    lemma_subrange_concat(s, i, q + seq![':'], jv);
    lemma_subrange_concat(s, i, q, seq![':']);
    lemma_sp_string_round(s, i, p.name);
    assert(s.subrange(i + q.len(), i + q.len() + 1) == seq![':']);
    lemma_sp_lit_round(s, i + q.len(), seq![':']);
    lemma_sp_vars_round(s, i + q.len() + 1, p.vars);
    assert(p == ProfileV { name: p.name, vars: p.vars });
}

/// Reading the serialized tail of the profiles object appends its profiles.
#[verifier::spinoff_prover]
#[verifier::rlimit(100)]
proof fn lemma_sp_pairs_more_round(s: Seq<char>, i: int, rest: Seq<ProfileV>, acc: Seq<ProfileV>)
    requires
        0 <= i,
        i + sep_pairs(rest).len() + 1 <= s.len(),
        s.subrange(i, i + sep_pairs(rest).len()) == sep_pairs(rest),
        s[i + sep_pairs(rest).len()] == '}',
    ensures
        sp_pairs_more(s, i, acc) == Some((acc + rest, i + sep_pairs(rest).len() + 1)),
    decreases rest.len(),
{
    if rest.len() == 0 {
        assert(s[i] == '}');
        assert(s.subrange(i, i + 1) =~= seq!['}']);
        lemma_sp_lit_round(s, i, seq!['}']);
        assert(acc + rest =~= acc);
    } else {
        let jp = json_of_pair(rest[0]);
        let tail = sep_pairs(rest.skip(1));
        assert(sep_pairs(rest) == seq![','] + jp + tail);
        lemma_subrange_concat(s, i, seq![','] + jp, tail);
        lemma_subrange_concat(s, i, seq![','], jp);
        assert(s.subrange(i, i + 1) == seq![',']);
        assert(s.subrange(i, i + 1)[0] == s[i]);
        assert(s[i] == ',');
        assert(sp_lit(s, i, seq!['}']) is None) by {
            if i + 1 <= s.len() && s.subrange(i, i + 1) == seq!['}'] {
                assert(s.subrange(i, i + 1)[0] == s[i]);
                assert(s[i] == '}');
                assert(false);
            }
        }
        lemma_sp_lit_round(s, i, seq![',']);
        lemma_sp_pair_round(s, i + 1, rest[0]);
        lemma_sp_pairs_more_round(s, i + 1 + jp.len(), rest.skip(1), acc.push(rest[0]));
        assert(acc.push(rest[0]) + rest.skip(1) =~= acc + rest);
    }
}

/// Reading the serialized profiles object yields the profiles.
#[verifier::spinoff_prover]
#[verifier::rlimit(100)]
proof fn lemma_sp_profiles_round(s: Seq<char>, i: int, ps: Seq<ProfileV>)
    requires
        0 <= i,
        i + json_of_profiles(ps).len() <= s.len(),
        s.subrange(i, i + json_of_profiles(ps).len()) == json_of_profiles(ps),
    ensures
        sp_profiles(s, i) == Some((ps, i + json_of_profiles(ps).len())),
{
    if ps.len() == 0 {
        assert(json_of_profiles(ps) == seq!['{', '}']);
        assert(s.subrange(i, i + 2)[0] == s[i]);
        assert(s.subrange(i, i + 2)[1] == s[i + 1]);
        assert(s[i] == '{' && s[i + 1] == '}');
        assert(s.subrange(i, i + 1) =~= seq!['{']);
        lemma_sp_lit_round(s, i, seq!['{']);
        assert(s.subrange(i + 1, i + 2) =~= seq!['}']);
        lemma_sp_lit_round(s, i + 1, seq!['}']);
        assert(ps =~= Seq::<ProfileV>::empty());
    } else {
        let jp = json_of_pair(ps[0]);
        let tail = sep_pairs(ps.skip(1));
        assert(json_of_profiles(ps) == seq!['{'] + jp + tail + seq!['}']);
        lemma_subrange_concat(s, i, seq!['{'] + jp + tail, seq!['}']);
        lemma_subrange_concat(s, i, seq!['{'] + jp, tail);
        lemma_subrange_concat(s, i, seq!['{'], jp);
        assert(s.subrange(i, i + 1) == seq!['{']);
        assert(s.subrange(i, i + 1)[0] == s[i]);
        assert(s[i] == '{');
        lemma_sp_lit_round(s, i, seq!['{']);
        assert(jp == quoted(ps[0].name) + seq![':'] + json_of_vars(ps[0].vars));
        assert(jp[0] == '"');
        assert(s.subrange(i + 1, i + 1 + jp.len())[0] == s[i + 1]);
        assert(s[i + 1] == '"');
        assert(sp_lit(s, i + 1, seq!['}']) is None) by {
            if i + 2 <= s.len() && s.subrange(i + 1, i + 2) == seq!['}'] {
                assert(s.subrange(i + 1, i + 2)[0] == s[i + 1]);
                assert(s[i + 1] == '}');
                assert(false);
            }
        }
        lemma_sp_pair_round(s, i + 1, ps[0]);
        let j = i + 1 + jp.len();
        assert(s.subrange(j, j + tail.len()) == tail);
        assert(s.subrange(i + 1 + jp.len() + tail.len(), i + json_of_profiles(ps).len())[0]
            == s[j + tail.len()]);
        assert(s[j + tail.len()] == '}');
        lemma_sp_pairs_more_round(s, j, ps.skip(1), seq![ps[0]]);
        assert(seq![ps[0]] + ps.skip(1) =~= ps);
    }
}

/// Law: reading back a serialized document yields exactly that document —
/// saving and then loading loses nothing, and a file the tool wrote is
/// reproduced character for character when loaded and saved again.
#[verifier::spinoff_prover]
#[verifier::rlimit(100)]
pub proof fn lemma_save_then_load(d: DocV)
    requires
        d.wf(),
    ensures
        sp_doc(json_of_doc(d)) == Some(d),
{
    let s = json_of_doc(d);
    let a1 = tok_doc_open();
    let q1 = json_of_current(d.current);
    let a2 = tok_profiles();
    let q2 = json_of_profiles(d.profiles);
    assert(s.subrange(0, s.len() as int) =~= s);
    lemma_subrange_concat(s, 0, a1 + q1 + a2 + q2, seq!['}']);
    lemma_subrange_concat(s, 0, a1 + q1 + a2, q2);
    lemma_subrange_concat(s, 0, a1 + q1, a2);
    lemma_subrange_concat(s, 0, a1, q1);
    lemma_sp_lit_round(s, 0, a1);
    let i1 = a1.len() as int;
    let i2 = i1 + q1.len();
    let i3 = i2 + a2.len();
    let i4 = i3 + q2.len();
    match d.current {
        None => {
            assert(q1 == tok_null());
            lemma_sp_lit_round(s, i1, tok_null());
            assert(sp_current(s, i1) == Some((None::<Seq<char>>, i2)));
        },
        Some(n) => {
            assert(q1 == quoted(n));
            assert(s.subrange(i1, i2)[0] == s[i1]);
            assert(q1[0] == '"');
            assert(s[i1] == '"');
            assert(sp_lit(s, i1, tok_null()) is None) by {
                if i1 + 4 <= s.len() && s.subrange(i1, i1 + 4) == tok_null() {
                    assert(s.subrange(i1, i1 + 4)[0] == s[i1]);
                    assert(s[i1] == 'n');
                    assert(false);
                }
            }
            lemma_sp_string_round(s, i1, n);
            assert(sp_current(s, i1) == Some((Some(n), i2)));
        },
    }
    lemma_sp_lit_round(s, i2, a2);
    lemma_sp_profiles_round(s, i3, d.profiles);
    assert(s.subrange(i4, i4 + 1) == seq!['}']);
    lemma_sp_lit_round(s, i4, seq!['}']);
    assert(i4 + 1 == s.len());
    assert(names_unique(d.profiles));
    assert(d == DocV { current: d.current, profiles: d.profiles });
}

} // verus!
