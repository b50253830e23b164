//! Strict YAML frontmatter for `.md` notes.
//!
//! The schema is closed: any unknown key is a parse error. Anchors, tags
//! (`!!type`), and multi-document streams are rejected. If a synced file
//! shows up with unexpected keys we want to fail loudly, not silently drop
//! them.
use vstd::prelude::*;
use vstd::string::StringSliceAdditionalSpecFns;
use vstd::utf8::encode_utf8;

use crate::ids::{ulid_encode, NoteId};
use crate::text::{
    ascii_lower, chars_of, fold_case, folded, is_ws, push_char, push_str, trim, trim_bounds,
};

verus! {

/// The closed schema.
#[derive(Debug, Clone, PartialEq, Eq)]
pub struct Frontmatter {
    pub id: NoteId,
    /// ISO-8601 with trailing `Z`.
    pub created: String,
    pub updated: String,
    pub title: Option<String>,
    pub tags: Vec<String>,
    pub links: Vec<String>,
    pub attachments: Vec<Attachment>,
}

/// A file attached to a note.
#[derive(Debug, Clone, PartialEq, Eq)]
pub enum Attachment {
    Image { file: String },
    Audio { file: String, transcript: Option<String> },
}

/// Errors from reading or writing frontmatter.
#[derive(Debug, PartialEq, Eq)]
pub enum FrontmatterError {
    /// Frontmatter must start with a `---` fence on its own line.
    MissingOpeningFence,
    /// Frontmatter has no closing `---` fence.
    MissingClosingFence,
    /// The YAML did not load, or did not fit the schema.
    Yaml(String),
    /// A YAML feature this schema does not allow.
    DisallowedYaml(&'static str),
}

impl FrontmatterError {
    /// The error's message.
    pub fn to_string(&self) -> (r: String)
        ensures
            r@ == match self {
                FrontmatterError::MissingOpeningFence => "frontmatter must start with a `---` fence on its own line"@,
                FrontmatterError::MissingClosingFence => "frontmatter has no closing `---` fence"@,
                FrontmatterError::Yaml(m) => "YAML parse error: "@ + m@,
                FrontmatterError::DisallowedYaml(m) => "YAML feature is not allowed in this schema: "@ + m@,
            },
    {
        match self {
            FrontmatterError::MissingOpeningFence => String::from_str("frontmatter must start with a `---` fence on its own line"),
            FrontmatterError::MissingClosingFence => String::from_str("frontmatter has no closing `---` fence"),
            FrontmatterError::Yaml(m) => crate::text::joined("YAML parse error: ", m.as_str()),
            FrontmatterError::DisallowedYaml(m) => crate::text::joined("YAML feature is not allowed in this schema: ", m),
        }
    }
}

// ───────────────────────── timestamps ──────────────────────────────────

/// The shape `YYYY-MM-DDTHH:MM:SSZ` checked on the UTF-8 bytes: twenty
/// bytes, a trailing `Z`, and the separators in place.
pub open spec fn iso8601_z_shape(b: Seq<u8>) -> bool {
    &&& b.len() == 20
    &&& b[19] == 90u8
    &&& b[4] == 45u8
    &&& b[7] == 45u8
    &&& b[10] == 84u8
    &&& b[13] == 58u8
    &&& b[16] == 58u8
}

/// Cheap structural check of an ISO-8601 timestamp with trailing `Z`.
pub fn validate_iso8601_z(s: &str) -> (r: Result<(), FrontmatterError>)
    ensures
        r is Ok <==> iso8601_z_shape(encode_utf8(s@)),
        r matches Err(e) ==> e is DisallowedYaml,
{
    let b = s.as_bytes();
    if b.len() != 20 || b[19] != 90u8 {
        return Err(FrontmatterError::DisallowedYaml("timestamp must be ISO-8601 with trailing Z"));
    }
    if b[4] != 45u8 || b[7] != 45u8 || b[10] != 84u8 || b[13] != 58u8 || b[16] != 58u8 {
        return Err(FrontmatterError::DisallowedYaml("timestamp must be ISO-8601 with trailing Z"));
    }
    Ok(())
}

// ───────────────────────── scalars ─────────────────────────────────────

/// Characters that change a scalar's meaning when they start it.
pub open spec fn special_start(c: char) -> bool {
    c == '-' || c == '#' || c == '?' || c == ':' || c == '[' || c == ']' || c == '{' || c == '}'
        || c == '&' || c == '*' || c == '!' || c == '|' || c == '>' || c == '\'' || c == '"'
        || c == '%' || c == '@' || c == '`'
}

/// Words YAML would read as a boolean or null (compared lower-cased).
pub open spec fn reserved_word(w: Seq<char>) -> bool {
    ||| w == seq!['t', 'r', 'u', 'e']
    ||| w == seq!['f', 'a', 'l', 's', 'e']
    ||| w == seq!['n', 'u', 'l', 'l']
    ||| w == seq!['~']
    ||| w == seq!['y', 'e', 's']
    ||| w == seq!['n', 'o']
    ||| w == seq!['o', 'n']
    ||| w == seq!['o', 'f', 'f']
}

pub open spec fn is_digit(c: char) -> bool {
    '0' <= c <= '9'
}

/// The number of ASCII digits in `s` from position `i` on, up to the first
/// non-digit.
pub open spec fn digit_run(s: Seq<char>, i: int) -> int
    decreases s.len() - i,
{
    if i < 0 || i >= s.len() || !is_digit(s[i]) {
        0
    } else {
        1 + digit_run(s, i + 1)
    }
}

/// `s[i..]` is an exponent: `e`, an optional sign, one or more digits.
pub open spec fn exponent_from(s: Seq<char>, i: int) -> bool {
    &&& 0 <= i < s.len()
    &&& s[i] == 'e'
    &&& {
        let j = if i + 1 < s.len() && (s[i + 1] == '+' || s[i + 1] == '-') {
            i + 2
        } else {
            i + 1
        };
        digit_run(s, j) >= 1 && j + digit_run(s, j) == s.len()
    }
}

/// `s[i..]` is a decimal number: digits with an optional fraction (at least
/// one digit in all), then an optional exponent.
pub open spec fn number_from(s: Seq<char>, i: int) -> bool {
    let a = digit_run(s, i);
    let (digits, j) = if i + a < s.len() && s[i + a] == '.' {
        (a + digit_run(s, i + a + 1), i + a + 1 + digit_run(s, i + a + 1))
    } else {
        (a, i + a)
    };
    &&& 0 <= i
    &&& digits >= 1
    &&& (j == s.len() || exponent_from(s, j))
}

/// The lower-cased text `w` is accepted by `f64::from_str`, whose grammar
/// (on the lower-cased input) is
/// `Sign? ('inf' | 'infinity' | 'nan' | Number)` with
/// `Number ::= (Digit+ | Digit+ '.' Digit* | Digit* '.' Digit+) Exp?` and
/// `Exp ::= 'e' Sign? Digit+`.
pub open spec fn float_text_lower(w: Seq<char>) -> bool {
    let i = if w.len() > 0 && (w[0] == '+' || w[0] == '-') {
        1int
    } else {
        0int
    };
    let rest = w.skip(i);
    ||| rest == seq!['i', 'n', 'f']
    ||| rest == seq!['i', 'n', 'f', 'i', 'n', 'i', 't', 'y']
    ||| rest == seq!['n', 'a', 'n']
    ||| number_from(w, i)
}

/// `s` parses as an `f64`.
pub open spec fn float_text(s: Seq<char>) -> bool {
    float_text_lower(fold_case(s))
}

/// `s` holds `c`.
pub open spec fn has_char(s: Seq<char>, c: char) -> bool {
    s.contains(c)
}

/// A scalar is quoted when writing it bare would change what YAML reads.
pub open spec fn needs_quote(s: Seq<char>) -> bool {
    ||| s.len() == 0
    ||| trim(s).len() == 0
    ||| trim(s) != s
    ||| special_start(s[0])
    ||| has_char(s, '\n') || has_char(s, '\t') || has_char(s, ':') || has_char(s, '#')
    ||| reserved_word(fold_case(s))
    ||| float_text(s)
}

/// `s` with `\` and `"` escaped by a backslash.
pub open spec fn escape_quoted(s: Seq<char>) -> Seq<char>
    decreases s.len(),
{
    if s.len() == 0 {
        Seq::empty()
    } else {
        let c = s.last();
        escape_quoted(s.drop_last()) + if c == '\\' {
            seq!['\\', '\\']
        } else if c == '"' {
            seq!['\\', '"']
        } else {
            seq![c]
        }
    }
}

/// How a scalar is written: bare, or double-quoted with escapes.
pub open spec fn scalar_text(s: Seq<char>) -> Seq<char> {
    if needs_quote(s) {
        seq!['"'] + escape_quoted(s) + seq!['"']
    } else {
        s
    }
}

fn count_digits(v: &Vec<char>, i: usize) -> (r: usize)
    requires
        i <= v.len(),
    ensures
        r == digit_run(v@, i as int),
        i + r <= v.len(),
    decreases v.len() - i,
{
    if i < v.len() && '0' <= v[i] && v[i] <= '9' {
        1 + count_digits(v, i + 1)
    } else {
        0
    }
}

fn exponent_at(v: &Vec<char>, i: usize) -> (r: bool)
    requires
        i <= v.len(),
    ensures
        r == exponent_from(v@, i as int),
{
    if i >= v.len() || v[i] != 'e' {
        return false;
    }
    let j = if i + 1 < v.len() && (v[i + 1] == '+' || v[i + 1] == '-') {
        i + 2
    } else {
        i + 1
    };
    let d = count_digits(v, j);
    d >= 1 && j + d == v.len()
}

/// Whether `s` parses as an `f64`.
fn parses_as_float(s: &str) -> (r: bool)
    ensures
        r == float_text(s@),
{
    let w = folded(s);
    let i: usize = if w.len() > 0 && (w[0] == '+' || w[0] == '-') {
        1
    } else {
        0
    };
    let n = w.len() - i;
    let ghost rest = w@.skip(i as int);
    if n == 3 && w[i] == 'i' && w[i + 1] == 'n' && w[i + 2] == 'f' {
        assert(rest =~= seq!['i', 'n', 'f']);
        return true;
    }
    if n == 8 && w[i] == 'i' && w[i + 1] == 'n' && w[i + 2] == 'f' && w[i + 3] == 'i' && w[i + 4]
        == 'n' && w[i + 5] == 'i' && w[i + 6] == 't' && w[i + 7] == 'y' {
        assert(rest =~= seq!['i', 'n', 'f', 'i', 'n', 'i', 't', 'y']);
        return true;
    }
    if n == 3 && w[i] == 'n' && w[i + 1] == 'a' && w[i + 2] == 'n' {
        assert(rest =~= seq!['n', 'a', 'n']);
        return true;
    }
    proof {
        assert(rest.len() == n);
        assert(forall|m: int| 0 <= m < n ==> rest[m] == w@[i + m]);
    }
    let a = count_digits(&w, i);
    let (digits, j) = if i + a < w.len() && w[i + a] == '.' {
        let b = count_digits(&w, i + a + 1);
        (a + b, i + a + 1 + b)
    } else {
        (a, i + a)
    };
    digits >= 1 && (j == w.len() || exponent_at(&w, j))
}

/// Whether `s` holds `c`.
fn contains_char(v: &Vec<char>, c: char) -> (r: bool)
    ensures
        r == has_char(v@, c),
{
    let mut k: usize = 0;
    while k < v.len()
        invariant
            k <= v.len(),
            forall|m: int| 0 <= m < k ==> v@[m] != c,
        decreases v.len() - k,
    {
        if v[k] == c {
            assert(v@[k as int] == c);
            return true;
        }
        k += 1;
    }
    false
}

/// Whether the lower-cased text is a YAML boolean or null word.
fn is_reserved_word(w: &Vec<char>) -> (r: bool)
    ensures
        r == reserved_word(w@),
{
    let n = w.len();
    let r = (n == 4 && w[0] == 't' && w[1] == 'r' && w[2] == 'u' && w[3] == 'e') || (n == 5 && w[0]
        == 'f' && w[1] == 'a' && w[2] == 'l' && w[3] == 's' && w[4] == 'e') || (n == 4 && w[0]
        == 'n' && w[1] == 'u' && w[2] == 'l' && w[3] == 'l') || (n == 1 && w[0] == '~') || (n
        == 3 && w[0] == 'y' && w[1] == 'e' && w[2] == 's') || (n == 2 && w[0] == 'n' && w[1]
        == 'o') || (n == 2 && w[0] == 'o' && w[1] == 'n') || (n == 3 && w[0] == 'o' && w[1]
        == 'f' && w[2] == 'f');
    proof {
        let s = w@;
        if r {
            if n == 4 && w[0] == 't' {
                assert(s =~= seq!['t', 'r', 'u', 'e']);
            } else if n == 5 {
                assert(s =~= seq!['f', 'a', 'l', 's', 'e']);
            } else if n == 4 {
                assert(s =~= seq!['n', 'u', 'l', 'l']);
            } else if n == 1 {
                assert(s =~= seq!['~']);
            } else if n == 3 && w[0] == 'y' {
                assert(s =~= seq!['y', 'e', 's']);
            } else if n == 2 && w[1] == 'o' {
                assert(s =~= seq!['n', 'o']);
            } else if n == 2 {
                assert(s =~= seq!['o', 'n']);
            } else {
                assert(s =~= seq!['o', 'f', 'f']);
            }
        }
        if reserved_word(s) {
            assert(r);
        }
    }
    r
}

/// Quote a scalar only when it would otherwise be parsed as a non-string
/// type. Strings that look like booleans, null or numbers, that carry
/// surrounding whitespace, or contain colons / leading dashes / hashes get
/// double-quoted; everything else is emitted bare.
pub fn yaml_scalar(s: &str) -> (r: String)
    ensures
        r@ == scalar_text(s@),
{
    let v = chars_of(s);
    let n = v.len();
    let (lo, hi) = trim_bounds(&v, 0, n);
    let needs = n == 0 || hi <= lo || hi - lo != n || special_start_char(v[0]) || contains_char(&v, '\n')
        || contains_char(&v, '\t') || contains_char(&v, ':') || contains_char(&v, '#')
        || is_reserved_word(&folded(s)) || parses_as_float(s);
    proof {
        assert(v@.subrange(0, n as int) =~= v@);
        if n > 0 {
            if trim(s@).len() == n {
                assert(trim(s@) =~= s@) by {
                    assert(lo == 0);
                }
            }
            if hi - lo != n {
                assert(trim(s@).len() != s@.len());
            }
        }
    }
    if needs {
        let mut out = String::new();
        push_char(&mut out, '"');
        let mut k: usize = 0;
        while k < n
            invariant
                k <= n == v.len(),
                v@ == s@,
                out@ == seq!['"'] + escape_quoted(v@.take(k as int)),
            decreases n - k,
        {
            let c = v[k];
            assert(v@.take(k + 1).drop_last() =~= v@.take(k as int));
            if c == '\\' {
                push_char(&mut out, '\\');
                push_char(&mut out, '\\');
            } else if c == '"' {
                push_char(&mut out, '\\');
                push_char(&mut out, '"');
            } else {
                push_char(&mut out, c);
            }
            assert(out@ =~= seq!['"'] + escape_quoted(v@.take(k + 1)));
            k += 1;
        }
        push_char(&mut out, '"');
        assert(v@.take(n as int) =~= v@);
        out
    } else {
        String::from_str(s)
    }
}

/// Executable form of [`special_start`].
fn special_start_char(c: char) -> (r: bool)
    ensures
        r == special_start(c),
{
    c == '-' || c == '#' || c == '?' || c == ':' || c == '[' || c == ']' || c == '{' || c == '}'
        || c == '&' || c == '*' || c == '!' || c == '|' || c == '>' || c == '\'' || c == '"'
        || c == '%' || c == '@' || c == '`'
}

// ───────────────────────── writing ─────────────────────────────────────

/// `key: value` on a line of its own, the value written as a scalar.
pub open spec fn kv_text(key: Seq<char>, value: Seq<char>) -> Seq<char> {
    key + seq![':', ' '] + scalar_text(value) + seq!['\n']
}

/// Block-style list items, `  - item` each on a line of its own.
pub open spec fn items_text(items: Seq<Seq<char>>) -> Seq<char>
    decreases items.len(),
{
    if items.len() == 0 {
        Seq::empty()
    } else {
        items_text(items.drop_last()) + seq![' ', ' ', '-', ' '] + scalar_text(items.last())
            + seq!['\n']
    }
}

/// A block-style list under `key`, or nothing when the list is empty.
pub open spec fn list_text(key: Seq<char>, items: Seq<Seq<char>>) -> Seq<char> {
    if items.len() == 0 {
        Seq::empty()
    } else {
        key + seq![':', '\n'] + items_text(items)
    }
}

/// One attachment as a block-style mapping item.
pub open spec fn attachment_text(a: Attachment) -> Seq<char> {
    match a {
        Attachment::Image { file } => seq![' ', ' ', '-', ' ', 'k', 'i', 'n', 'd', ':', ' ', 'i', 'm', 'a', 'g', 'e', '\n']
            + seq![' ', ' ', ' ', ' ', 'f', 'i', 'l', 'e', ':', ' '] + scalar_text(file@) + seq!['\n'],
        Attachment::Audio { file, transcript } => seq![' ', ' ', '-', ' ', 'k', 'i', 'n', 'd', ':', ' ', 'a', 'u', 'd', 'i', 'o', '\n']
            + seq![' ', ' ', ' ', ' ', 'f', 'i', 'l', 'e', ':', ' '] + scalar_text(file@) + seq!['\n']
            + match transcript {
            Some(t) => seq![' ', ' ', ' ', ' ', 't', 'r', 'a', 'n', 's', 'c', 'r', 'i', 'p', 't', ':', ' ']
                + scalar_text(t@) + seq!['\n'],
            None => Seq::empty(),
        },
    }
}

/// The attachments, in order.
pub open spec fn attachments_text(atts: Seq<Attachment>) -> Seq<char>
    decreases atts.len(),
{
    if atts.len() == 0 {
        Seq::empty()
    } else {
        attachments_text(atts.drop_last()) + attachment_text(atts.last())
    }
}

/// The opening fence and the three required keys.
pub open spec fn head_text(fm: Frontmatter) -> Seq<char> {
    seq!['-', '-', '-', '\n'] + kv_text(seq!['i', 'd'], ulid_encode(fm.id.value)) + kv_text(
        seq!['c', 'r', 'e', 'a', 't', 'e', 'd'],
        fm.created@,
    ) + kv_text(seq!['u', 'p', 'd', 'a', 't', 'e', 'd'], fm.updated@)
}

/// The `title` line, if there is a title.
pub open spec fn title_text(fm: Frontmatter) -> Seq<char> {
    match fm.title {
        Some(t) => kv_text(seq!['t', 'i', 't', 'l', 'e'], t@),
        None => Seq::empty(),
    }
}

/// The `attachments` block, if there are attachments.
pub open spec fn attachments_block(atts: Seq<Attachment>) -> Seq<char> {
    if atts.len() == 0 {
        Seq::empty()
    } else {
        seq!['a', 't', 't', 'a', 'c', 'h', 'm', 'e', 'n', 't', 's', ':', '\n'] + attachments_text(atts)
    }
}

/// The canonical text of a note: frontmatter keys in the fixed order id,
/// created, updated, title, tags, links, attachments, empty optional fields
/// left out, lists in block style, then a fence, a blank line and the body.
pub open spec fn note_text(fm: Frontmatter, body: Seq<char>) -> Seq<char> {
    head_text(fm) + title_text(fm) + list_text(seq!['t', 'a', 'g', 's'], crate::index::strs_view(fm.tags@))
        + list_text(seq!['l', 'i', 'n', 'k', 's'], crate::index::strs_view(fm.links@))
        + attachments_block(fm.attachments@) + seq!['-', '-', '-', '\n', '\n'] + body
}

/// Appends `key: value` and a newline.
pub fn write_kv(out: &mut String, key: &str, value: &str)
    ensures
        final(out)@ == old(out)@ + kv_text(key@, value@),
{
    push_str(out, key);
    push_char(out, ':');
    push_char(out, ' ');
    let v = yaml_scalar(value);
    push_str(out, v.as_str());
    push_char(out, '\n');
    assert(out@ =~= old(out)@ + kv_text(key@, value@));
}

fn write_items(out: &mut String, items: &Vec<String>)
    ensures
        final(out)@ == old(out)@ + items_text(crate::index::strs_view(items@)),
{
    let ghost start = out@;
    let mut k: usize = 0;
    while k < items.len()
        invariant
            k <= items.len(),
            out@ == start + items_text(crate::index::strs_view(items@.take(k as int))),
        decreases items.len() - k,
    {
        let ghost before = out@;
        push_char(out, ' ');
        push_char(out, ' ');
        push_char(out, '-');
        push_char(out, ' ');
        let v = yaml_scalar(items[k].as_str());
        push_str(out, v.as_str());
        push_char(out, '\n');
        let ghost pre = crate::index::strs_view(items@.take(k + 1));
        assert(pre.drop_last() =~= crate::index::strs_view(items@.take(k as int)));
        assert(pre.last() == items@[k as int]@);
        assert(out@ =~= start + items_text(pre));
        k += 1;
    }
    assert(items@.take(items.len() as int) =~= items@);
}

fn write_attachment(out: &mut String, a: &Attachment)
    ensures
        final(out)@ == old(out)@ + attachment_text(*a),
{
    let ghost start = out@;
    match a {
        Attachment::Image { file } => {
            push_str(out, "  - kind: image\n    file: ");
            let v = yaml_scalar(file.as_str());
            push_str(out, v.as_str());
            push_char(out, '\n');
            proof {
                reveal_strlit("  - kind: image\n    file: ");
            }
            assert(out@ =~= start + attachment_text(*a));
        },
        Attachment::Audio { file, transcript } => {
            push_str(out, "  - kind: audio\n    file: ");
            let v = yaml_scalar(file.as_str());
            push_str(out, v.as_str());
            push_char(out, '\n');
            proof {
                reveal_strlit("  - kind: audio\n    file: ");
            }
            let ghost mid = out@;
            match transcript {
                Some(t) => {
                    push_str(out, "    transcript: ");
                    let w = yaml_scalar(t.as_str());
                    push_str(out, w.as_str());
                    push_char(out, '\n');
                    proof {
                        reveal_strlit("    transcript: ");
                    }
                },
                None => {},
            }
            assert(out@ =~= start + attachment_text(*a));
        },
    }
}

fn write_list(out: &mut String, key: &str, items: &Vec<String>)
    ensures
        final(out)@ == old(out)@ + list_text(key@, crate::index::strs_view(items@)),
{
    if items.len() > 0 {
        push_str(out, key);
        push_char(out, ':');
        push_char(out, '\n');
        let ghost mid = out@;
        write_items(out, items);
        assert(out@ =~= old(out)@ + list_text(key@, crate::index::strs_view(items@)));
    } else {
        assert(list_text(key@, crate::index::strs_view(items@)) =~= Seq::<char>::empty());
        assert(out@ =~= old(out)@ + Seq::<char>::empty());
    }
}

fn write_attachments(out: &mut String, atts: &Vec<Attachment>)
    ensures
        final(out)@ == old(out)@ + attachments_block(atts@),
{
    if atts.len() == 0 {
        assert(out@ =~= old(out)@ + Seq::<char>::empty());
        return;
    }
    push_str(out, "attachments:\n");
    proof {
        reveal_strlit("attachments:\n");
    }
    let ghost base = out@;
    let mut k: usize = 0;
    while k < atts.len()
        invariant
            k <= atts.len(),
            out@ == base + attachments_text(atts@.take(k as int)),
        decreases atts.len() - k,
    {
        write_attachment(out, &atts[k]);
        assert(atts@.take(k + 1).drop_last() =~= atts@.take(k as int));
        assert(out@ =~= base + attachments_text(atts@.take(k + 1)));
        k += 1;
    }
    assert(atts@.take(atts.len() as int) =~= atts@);
    assert(out@ =~= old(out)@ + attachments_block(atts@));
}

fn write_head(out: &mut String, fm: &Frontmatter)
    requires
        old(out)@.len() == 0,
    ensures
        final(out)@ == head_text(*fm),
{
    push_str(out, "---\n");
    let id_text = fm.id.to_string();
    write_kv(out, "id", id_text.as_str());
    write_kv(out, "created", fm.created.as_str());
    write_kv(out, "updated", fm.updated.as_str());
    proof {
        reveal_strlit("---\n");
        reveal_strlit("id");
        reveal_strlit("created");
        reveal_strlit("updated");
    }
    assert(out@ =~= head_text(*fm));
}

fn write_title(out: &mut String, fm: &Frontmatter)
    ensures
        final(out)@ == old(out)@ + title_text(*fm),
{
    match &fm.title {
        Some(t) => {
            write_kv(out, "title", t.as_str());
            proof {
                reveal_strlit("title");
            }
        },
        None => {
            assert(out@ =~= old(out)@ + Seq::<char>::empty());
        },
    }
}

/// Write a `Frontmatter` and body to canonical `.md` form. Fails when
/// `created` or `updated` is not an ISO-8601 timestamp with trailing `Z`;
/// identical inputs give identical text.
pub fn write(fm: &Frontmatter, body: &str) -> (r: Result<String, FrontmatterError>)
    ensures
        r is Ok <==> iso8601_z_shape(encode_utf8(fm.created@)) && iso8601_z_shape(
            encode_utf8(fm.updated@),
        ),
        r matches Ok(text) ==> text@ == note_text(*fm, body@),
        r matches Err(e) ==> e is DisallowedYaml,
{
    validate_iso8601_z(fm.created.as_str())?;
    validate_iso8601_z(fm.updated.as_str())?;
    let mut out = String::new();
    write_head(&mut out, fm);
    let ghost p1 = out@;
    write_title(&mut out, fm);
    let ghost p2 = out@;
    write_list(&mut out, "tags", &fm.tags);
    let ghost p3 = out@;
    write_list(&mut out, "links", &fm.links);
    let ghost p4 = out@;
    write_attachments(&mut out, &fm.attachments);
    let ghost p5 = out@;
    push_str(&mut out, "---\n\n");
    push_str(&mut out, body);
    proof {
        reveal_strlit("---\n\n");
        reveal_strlit("tags");
        reveal_strlit("links");
    }
    assert(out@ =~= note_text(*fm, body@));
    Ok(out)
}

// ───────────────────────── splitting ───────────────────────────────────

/// `s` begins with `p`.
pub open spec fn starts_with(s: Seq<char>, p: Seq<char>) -> bool {
    p.len() <= s.len() && s.take(p.len() as int) == p
}

/// `p` occurs in `s` at position `k`.
pub open spec fn occurs_at(s: Seq<char>, p: Seq<char>, k: int) -> bool {
    0 <= k && k + p.len() <= s.len() && s.subrange(k, k + p.len()) == p
}

/// The first position from `i` on where `p` occurs in `s`.
pub open spec fn find_from(s: Seq<char>, p: Seq<char>, i: int) -> Option<int>
    decreases s.len() + 1 - i,
{
    if i < 0 || i + p.len() > s.len() {
        None
    } else if occurs_at(s, p, i) {
        Some(i)
    } else {
        find_from(s, p, i + 1)
    }
}

/// `s` with every leading copy of `p` removed (`trim_start_matches`).
pub open spec fn strip_all(s: Seq<char>, p: Seq<char>) -> Seq<char>
    decreases s.len(),
{
    if p.len() > 0 && starts_with(s, p) {
        strip_all(s.skip(p.len() as int), p)
    } else {
        s
    }
}

pub open spec fn fence_lf() -> Seq<char> {
    seq!['-', '-', '-', '\n']
}

pub open spec fn fence_crlf() -> Seq<char> {
    seq!['-', '-', '-', '\r', '\n']
}

/// What follows the opening fence, if the source opens with one.
pub open spec fn after_opening_fence(s: Seq<char>) -> Option<Seq<char>> {
    if starts_with(s, fence_lf()) {
        Some(s.skip(4))
    } else if starts_with(s, fence_crlf()) {
        Some(s.skip(5))
    } else {
        None
    }
}

/// Where the closing fence starts: a `---` line ended by `\n`, else one
/// ended by `\r\n`, else a `---` that ends the text.
pub open spec fn closing_fence_at(rest: Seq<char>) -> Option<int> {
    match find_from(rest, seq!['\n', '-', '-', '-', '\n'], 0) {
        Some(k) => Some(k),
        None => match find_from(rest, seq!['\n', '-', '-', '-', '\r', '\n'], 0) {
            Some(k) => Some(k),
            None => if rest.len() >= 4 && rest.skip(rest.len() - 4) == seq!['\n', '-', '-', '-'] {
                Some(rest.len() - 4)
            } else {
                None
            },
        },
    }
}

/// The body: the text from the closing fence on, with leading newlines,
/// the fence dashes, newlines again and `\r\n` pairs stripped in turn.
pub open spec fn body_after_fence(t: Seq<char>) -> Seq<char> {
    strip_all(
        strip_all(strip_all(strip_all(t, seq!['\n']), seq!['-', '-', '-']), seq!['\n']),
        seq!['\r', '\n'],
    )
}

fn occurs_at_exec(v: &Vec<char>, p: &Vec<char>, k: usize) -> (r: bool)
    ensures
        r == occurs_at(v@, p@, k as int),
{
    if k > v.len() || p.len() > v.len() - k {
        return false;
    }
    let mut m: usize = 0;
    while m < p.len()
        invariant
            m <= p.len(),
            k + p.len() <= v.len(),
            forall|i: int| 0 <= i < m ==> v@[k + i] == p@[i],
        decreases p.len() - m,
    {
        if v[k + m] != p[m] {
            assert(v@.subrange(k as int, k + p.len())[m as int] != p@[m as int]);
            return false;
        }
        m += 1;
    }
    assert(v@.subrange(k as int, k + p.len()) =~= p@);
    true
}

fn find_exec(v: &Vec<char>, p: &Vec<char>) -> (r: Option<usize>)
    ensures
        r matches Some(k) ==> find_from(v@, p@, 0) == Some(k as int) && k + p.len() <= v.len(),
        r is None ==> find_from(v@, p@, 0) is None,
{
    if p.len() == 0 {
        assert(v@.subrange(0, 0) =~= p@);
        return Some(0);
    }
    let mut k: usize = 0;
    while k <= v.len() && p.len() <= v.len() - k
        invariant
            p.len() > 0,
            find_from(v@, p@, 0) == find_from(v@, p@, k as int),
        decreases v.len() + 1 - k,
    {
        if occurs_at_exec(v, p, k) {
            return Some(k);
        }
        k += 1;
    }
    None
}

/// Position after stripping every leading copy of `p` from `v[lo..]`.
fn strip_all_exec(v: &Vec<char>, lo: usize, p: &Vec<char>) -> (r: usize)
    requires
        lo <= v.len(),
        p.len() > 0,
    ensures
        lo <= r <= v.len(),
        v@.skip(r as int) == strip_all(v@.skip(lo as int), p@),
{
    let mut a = lo;
    while a <= v.len() && p.len() <= v.len() - a && occurs_at_exec(v, p, a)
        invariant
            lo <= a <= v.len(),
            p.len() > 0,
            strip_all(v@.skip(lo as int), p@) == strip_all(v@.skip(a as int), p@),
        decreases v.len() - a,
    {
        assert(v@.skip(a as int).take(p.len() as int) =~= v@.subrange(a as int, a + p.len()));
        assert(v@.skip(a as int).skip(p.len() as int) =~= v@.skip(a + p.len()));
        a = a + p.len();
    }
    proof {
        let t = v@.skip(a as int);
        if starts_with(t, p@) {
            assert(t.take(p.len() as int) =~= v@.subrange(a as int, a + p.len()));
        }
    }
    a
}

/// Split a markdown source on the opening and closing `---` fences into
/// the YAML text and the body.
pub fn split_frontmatter(source: &str) -> (r: Result<(String, String), FrontmatterError>)
    ensures
        r matches Err(e) ==> (e is MissingOpeningFence <==> after_opening_fence(source@) is None)
            && (e is MissingClosingFence <==> after_opening_fence(source@) is Some
            && closing_fence_at(after_opening_fence(source@)->0) is None) && (e is MissingOpeningFence
            || e is MissingClosingFence),
        r is Ok <==> after_opening_fence(source@) is Some && closing_fence_at(
            after_opening_fence(source@)->0,
        ) is Some,
        r matches Ok((yaml, body)) ==> {
            let rest = after_opening_fence(source@)->0;
            let c = closing_fence_at(rest)->0;
            yaml@ == rest.take(c) && body@ == body_after_fence(rest.skip(c))
        },
{
    let v = chars_of(source);
    let n = v.len();
    let start: usize = if n >= 4 && v[0] == '-' && v[1] == '-' && v[2] == '-' && v[3] == '\n' {
        assert(v@.take(4) =~= fence_lf());
        4
    } else if n >= 5 && v[0] == '-' && v[1] == '-' && v[2] == '-' && v[3] == '\r' && v[4] == '\n' {
        assert(v@.take(5) =~= fence_crlf());
        proof {
            if starts_with(v@, fence_lf()) {
                assert(v@.take(4)[3] == '\n');
            }
        }
        5
    } else {
        proof {
            if starts_with(v@, fence_lf()) {
                assert(v@.take(4)[0] == v@[0] && v@.take(4)[1] == v@[1]);
                assert(v@.take(4)[2] == v@[2] && v@.take(4)[3] == v@[3]);
            }
            if starts_with(v@, fence_crlf()) {
                assert(v@.take(5)[0] == v@[0] && v@.take(5)[1] == v@[1]);
                assert(v@.take(5)[2] == v@[2] && v@.take(5)[3] == v@[3]);
                assert(v@.take(5)[4] == v@[4]);
            }
        }
        return Err(FrontmatterError::MissingOpeningFence);
    };
    let mut rest: Vec<char> = Vec::new();
    let mut k: usize = start;
    while k < n
        invariant
            start <= k <= n == v.len(),
            rest@ == v@.subrange(start as int, k as int),
        decreases n - k,
    {
        rest.push(v[k]);
        assert(v@.subrange(start as int, k + 1) =~= v@.subrange(start as int, k as int).push(v@[k as int]));
        k += 1;
    }
    assert(rest@ =~= v@.skip(start as int));
    assert(after_opening_fence(source@) == Some(rest@));
    let m = rest.len();
    let lf = vec!['\n', '-', '-', '-', '\n'];
    let crlf = vec!['\n', '-', '-', '-', '\r', '\n'];
    assert(lf@ =~= seq!['\n', '-', '-', '-', '\n']);
    assert(crlf@ =~= seq!['\n', '-', '-', '-', '\r', '\n']);
    let close: usize = match find_exec(&rest, &lf) {
        Some(c) => c,
        None => match find_exec(&rest, &crlf) {
            Some(c) => c,
            None => {
                if m >= 4 && rest[m - 4] == '\n' && rest[m - 3] == '-' && rest[m - 2] == '-'
                    && rest[m - 1] == '-' {
                    assert(rest@.skip(m - 4) =~= seq!['\n', '-', '-', '-']);
                    m - 4
                } else {
                    proof {
                        if m >= 4 && rest@.skip(m - 4) == seq!['\n', '-', '-', '-'] {
                            assert(rest@.skip(m - 4)[0] == rest@[m - 4]);
                            assert(rest@.skip(m - 4)[1] == rest@[m - 3]);
                            assert(rest@.skip(m - 4)[2] == rest@[m - 2]);
                            assert(rest@.skip(m - 4)[3] == rest@[m - 1]);
                        }
                    }
                    return Err(FrontmatterError::MissingClosingFence);
                }
            },
        },
    };
    assert(closing_fence_at(rest@) == Some(close as int));
    let yaml = crate::text::string_from_range(&rest, 0, close);
    assert(rest@.subrange(0, close as int) =~= rest@.take(close as int));
    let nl = vec!['\n'];
    let dashes = vec!['-', '-', '-'];
    let crlf2 = vec!['\r', '\n'];
    assert(nl@ =~= seq!['\n']);
    assert(dashes@ =~= seq!['-', '-', '-']);
    assert(crlf2@ =~= seq!['\r', '\n']);
    let a = strip_all_exec(&rest, close, &nl);
    let b = strip_all_exec(&rest, a, &dashes);
    let c = strip_all_exec(&rest, b, &nl);
    let d = strip_all_exec(&rest, c, &crlf2);
    let body = crate::text::string_from_range(&rest, d, m);
    assert(rest@.subrange(d as int, m as int) =~= rest@.skip(d as int));
    Ok((yaml, body))
}

// ───────────────────────── loading the YAML ────────────────────────────

/// A loaded YAML document. Scalars (strings, numbers, booleans) are kept as
/// text; mappings keep their entries in document order.
#[derive(Debug)]
pub enum YamlNode {
    Null,
    Scalar(String),
    List(Vec<YamlNode>),
    Mapping(Vec<(YamlNode, YamlNode)>),
    Tagged(String, Box<YamlNode>),
}

/// The document `serde_yaml` loads from `text`, or `None` when it rejects
/// the text.
pub uninterp spec fn yaml_document(text: Seq<char>) -> Option<YamlNode>;

/// `serde_yaml::Error`, carried opaquely until its message is taken.
#[verifier::external_type_specification]
#[verifier::external_body]
pub struct ExYamlError(serde_yaml::Error);

/// `serde_yaml::Value`, carried opaquely into the conversion to [`YamlNode`].
#[verifier::external_type_specification]
#[verifier::external_body]
pub struct ExYamlValue(serde_yaml::Value);

/// Loads one YAML document (`serde_yaml::from_str::<serde_yaml::Value>`)
/// and hands it over as a [`YamlNode`]. The contract only names the result:
/// the same text always loads to the same document.
#[verifier::external_body]
fn load_yaml(text: &str) -> (r: Result<YamlNode, serde_yaml::Error>)
    ensures
        r is Ok <==> yaml_document(text@) is Some,
        r matches Ok(doc) ==> yaml_document(text@) == Some(doc),
{
    serde_yaml::from_str::<serde_yaml::Value>(text).map(node_of_value)
}

/// The conversion half of [`load_yaml`]: a `serde_yaml::Value` as a
/// [`YamlNode`], one variant for one variant (numbers and booleans by their
/// `Display` text, tags by theirs).
#[verifier::external_body]
fn node_of_value(v: serde_yaml::Value) -> YamlNode {
    match v {
        serde_yaml::Value::Null => YamlNode::Null,
        serde_yaml::Value::Bool(b) => YamlNode::Scalar(b.to_string()),
        serde_yaml::Value::Number(n) => YamlNode::Scalar(n.to_string()),
        serde_yaml::Value::String(s) => YamlNode::Scalar(s),
        serde_yaml::Value::Sequence(items) => YamlNode::List(items.into_iter().map(node_of_value).collect()),
        serde_yaml::Value::Mapping(m) => YamlNode::Mapping(m.into_iter().map(|(k, x)| (node_of_value(k), node_of_value(x))).collect()),
        serde_yaml::Value::Tagged(t) => YamlNode::Tagged(t.tag.to_string(), Box::new(node_of_value(t.value))),
    }
}

/// The message of a `serde_yaml` error (its `Display`).
#[verifier::external_body]
fn yaml_error_text(e: &serde_yaml::Error) -> String {
    e.to_string()
}

// ───────────────────────── decoding the schema ─────────────────────────

/// The mathematical content of an [`Attachment`].
pub enum AttachmentView {
    Image { file: Seq<char> },
    Audio { file: Seq<char>, transcript: Option<Seq<char>> },
}

/// The mathematical content of a [`Frontmatter`].
pub struct FrontmatterView {
    pub id: u128,
    pub created: Seq<char>,
    pub updated: Seq<char>,
    pub title: Option<Seq<char>>,
    pub tags: Seq<Seq<char>>,
    pub links: Seq<Seq<char>>,
    pub attachments: Seq<AttachmentView>,
}

pub open spec fn opt_text(o: Option<String>) -> Option<Seq<char>> {
    match o {
        Some(s) => Some(s@),
        None => None,
    }
}

pub open spec fn attachment_view(a: Attachment) -> AttachmentView {
    match a {
        Attachment::Image { file } => AttachmentView::Image { file: file@ },
        Attachment::Audio { file, transcript } => AttachmentView::Audio {
            file: file@,
            transcript: opt_text(transcript),
        },
    }
}

pub open spec fn frontmatter_view(fm: Frontmatter) -> FrontmatterView {
    FrontmatterView {
        id: fm.id.value,
        created: fm.created@,
        updated: fm.updated@,
        title: opt_text(fm.title),
        tags: crate::index::strs_view(fm.tags@),
        links: crate::index::strs_view(fm.links@),
        attachments: fm.attachments@.map_values(|a: Attachment| attachment_view(a)),
    }
}

pub open spec fn key_id() -> Seq<char> { seq!['i', 'd'] }
pub open spec fn key_created() -> Seq<char> { seq!['c', 'r', 'e', 'a', 't', 'e', 'd'] }
pub open spec fn key_updated() -> Seq<char> { seq!['u', 'p', 'd', 'a', 't', 'e', 'd'] }
pub open spec fn key_title() -> Seq<char> { seq!['t', 'i', 't', 'l', 'e'] }
pub open spec fn key_tags() -> Seq<char> { seq!['t', 'a', 'g', 's'] }
pub open spec fn key_links() -> Seq<char> { seq!['l', 'i', 'n', 'k', 's'] }
pub open spec fn key_attachments() -> Seq<char> {
    seq!['a', 't', 't', 'a', 'c', 'h', 'm', 'e', 'n', 't', 's']
}
pub open spec fn key_kind() -> Seq<char> { seq!['k', 'i', 'n', 'd'] }
pub open spec fn key_file() -> Seq<char> { seq!['f', 'i', 'l', 'e'] }
pub open spec fn key_transcript() -> Seq<char> {
    seq!['t', 'r', 'a', 'n', 's', 'c', 'r', 'i', 'p', 't']
}
pub open spec fn kind_image() -> Seq<char> { seq!['i', 'm', 'a', 'g', 'e'] }
pub open spec fn kind_audio() -> Seq<char> { seq!['a', 'u', 'd', 'i', 'o'] }

/// The text of a scalar node.
pub open spec fn scalar_of(n: YamlNode) -> Option<Seq<char>> {
    match n {
        YamlNode::Scalar(s) => Some(s@),
        _ => None,
    }
}

/// The entry keys of a mapping are scalars from `allowed`, each at most once.
pub open spec fn keys_ok(es: Seq<(YamlNode, YamlNode)>, allowed: Seq<Seq<char>>) -> bool {
    &&& forall|i: int|
        0 <= i < es.len() ==> (#[trigger] scalar_of(es[i].0)) is Some && allowed.contains(
            scalar_of(es[i].0)->0,
        )
    &&& forall|i: int, j: int|
        0 <= i < j < es.len() ==> #[trigger] scalar_of(es[i].0) != #[trigger] scalar_of(es[j].0)
}

/// The value under key `k`, if any.
pub open spec fn lookup(es: Seq<(YamlNode, YamlNode)>, k: Seq<char>, i: int) -> Option<YamlNode>
    decreases es.len() - i,
{
    if i < 0 || i >= es.len() {
        None
    } else if scalar_of(es[i].0) == Some(k) {
        Some(es[i].1)
    } else {
        lookup(es, k, i + 1)
    }
}

/// A required text field.
pub open spec fn text_field(es: Seq<(YamlNode, YamlNode)>, k: Seq<char>) -> Option<Seq<char>> {
    match lookup(es, k, 0) {
        Some(n) => scalar_of(n),
        None => None,
    }
}

/// An optional text field: absent or null is `None`; anything but a scalar
/// is an error (the outer `None`).
pub open spec fn opt_text_field(es: Seq<(YamlNode, YamlNode)>, k: Seq<char>) -> Option<Option<Seq<char>>> {
    match lookup(es, k, 0) {
        None => Some(None),
        Some(YamlNode::Null) => Some(None),
        Some(YamlNode::Scalar(s)) => Some(Some(s@)),
        _ => None,
    }
}

/// The texts of a list of scalars.
pub open spec fn scalar_texts(items: Seq<YamlNode>) -> Option<Seq<Seq<char>>>
    decreases items.len(),
{
    if items.len() == 0 {
        Some(Seq::empty())
    } else {
        match (scalar_texts(items.drop_last()), scalar_of(items.last())) {
            (Some(front), Some(t)) => Some(front.push(t)),
            _ => None,
        }
    }
}

/// A list-of-text field: absent or null is empty.
pub open spec fn text_list_field(es: Seq<(YamlNode, YamlNode)>, k: Seq<char>) -> Option<Seq<Seq<char>>> {
    match lookup(es, k, 0) {
        None => Some(Seq::empty()),
        Some(YamlNode::Null) => Some(Seq::empty()),
        Some(YamlNode::List(items)) => scalar_texts(items@),
        _ => None,
    }
}

/// One attachment: a mapping with `kind: image` and a `file`, or
/// `kind: audio`, a `file` and an optional `transcript`; nothing else.
pub open spec fn attachment_of(n: YamlNode) -> Option<AttachmentView> {
    match n {
        YamlNode::Mapping(es) => {
            let es = es@;
            match (text_field(es, key_kind()), text_field(es, key_file())) {
                (Some(kind), Some(file)) => if kind == kind_image() && keys_ok(
                    es,
                    seq![key_kind(), key_file()],
                ) {
                    Some(AttachmentView::Image { file })
                } else if kind == kind_audio() && keys_ok(
                    es,
                    seq![key_kind(), key_file(), key_transcript()],
                ) {
                    match opt_text_field(es, key_transcript()) {
                        Some(t) => Some(AttachmentView::Audio { file, transcript: t }),
                        None => None,
                    }
                } else {
                    None
                },
                _ => None,
            }
        },
        _ => None,
    }
}

/// The attachments of a list.
pub open spec fn attachments_of(items: Seq<YamlNode>) -> Option<Seq<AttachmentView>>
    decreases items.len(),
{
    if items.len() == 0 {
        Some(Seq::empty())
    } else {
        match (attachments_of(items.drop_last()), attachment_of(items.last())) {
            (Some(front), Some(a)) => Some(front.push(a)),
            _ => None,
        }
    }
}

/// The `attachments` field: absent or null is empty.
pub open spec fn attachments_field(es: Seq<(YamlNode, YamlNode)>) -> Option<Seq<AttachmentView>> {
    match lookup(es, key_attachments(), 0) {
        None => Some(Seq::empty()),
        Some(YamlNode::Null) => Some(Seq::empty()),
        Some(YamlNode::List(items)) => attachments_of(items@),
        _ => None,
    }
}

/// The keys of the closed schema.
pub open spec fn schema_keys() -> Seq<Seq<char>> {
    seq![key_id(), key_created(), key_updated(), key_title(), key_tags(), key_links(), key_attachments()]
}

/// The frontmatter a loaded document holds, or `None` when it does not fit
/// the closed schema: a mapping with only the schema's keys, each at most
/// once; `id` a valid ULID; `created` and `updated` present as text;
/// `title` optional text; `tags` and `links` lists of text; `attachments` a
/// list of attachments.
pub open spec fn frontmatter_of(doc: YamlNode) -> Option<FrontmatterView> {
    match doc {
        YamlNode::Mapping(es) => {
            let es = es@;
            if !keys_ok(es, schema_keys()) {
                None
            } else {
                match (
                    text_field(es, key_id()),
                    text_field(es, key_created()),
                    text_field(es, key_updated()),
                    opt_text_field(es, key_title()),
                    text_list_field(es, key_tags()),
                    text_list_field(es, key_links()),
                    attachments_field(es),
                ) {
                    (Some(id), Some(c), Some(u), Some(t), Some(tags), Some(links), Some(atts)) => {
                        if crate::ids::ulid_text_valid(id) {
                            Some(
                                FrontmatterView {
                                    id: crate::ids::ulid_text_value(id, 26) as u128,
                                    created: c,
                                    updated: u,
                                    title: t,
                                    tags,
                                    links,
                                    attachments: atts,
                                },
                            )
                        } else {
                            None
                        }
                    },
                    _ => None,
                }
            }
        },
        _ => None,
    }
}

fn scalar_exec(n: &YamlNode) -> (r: Option<String>)
    ensures
        opt_text(r) == scalar_of(*n),
{
    match n {
        YamlNode::Scalar(t) => Some(t.clone()),
        _ => None,
    }
}

fn key_eq(n: &YamlNode, k: &Vec<char>) -> (r: bool)
    ensures
        r == (scalar_of(*n) == Some(k@)),
{
    match n {
        YamlNode::Scalar(t) => {
            let tv = chars_of(t.as_str());
            crate::text::seq_eq(&tv, k)
        },
        _ => false,
    }
}

fn keys_eq(a: &YamlNode, b: &YamlNode) -> (r: bool)
    requires
        scalar_of(*a) is Some,
        scalar_of(*b) is Some,
    ensures
        r == (scalar_of(*a) == scalar_of(*b)),
{
    match (a, b) {
        (YamlNode::Scalar(x), YamlNode::Scalar(y)) => crate::text::str_eq(x.as_str(), y.as_str()),
        _ => false,
    }
}

/// Position of the first entry under key `k`.
fn lookup_exec(es: &Vec<(YamlNode, YamlNode)>, k: &Vec<char>) -> (r: Option<usize>)
    ensures
        match r {
            Some(i) => i < es.len() && lookup(es@, k@, 0) == Some(es@[i as int].1),
            None => lookup(es@, k@, 0) is None,
        },
{
    let mut i: usize = 0;
    while i < es.len()
        invariant
            i <= es.len(),
            lookup(es@, k@, 0) == lookup(es@, k@, i as int),
        decreases es.len() - i,
    {
        if key_eq(&es[i].0, k) {
            return Some(i);
        }
        i += 1;
    }
    None
}

/// Whether every key of `es` is a scalar from `allowed`, each at most once.
fn keys_ok_exec(es: &Vec<(YamlNode, YamlNode)>, allowed: &Vec<Vec<char>>) -> (r: bool)
    ensures
        r == keys_ok(es@, allowed@.map_values(|v: Vec<char>| v@)),
{
    let ghost al = allowed@.map_values(|v: Vec<char>| v@);
    let mut i: usize = 0;
    while i < es.len()
        invariant
            i <= es.len(),
            al == allowed@.map_values(|v: Vec<char>| v@),
            forall|m: int|
                0 <= m < i ==> (#[trigger] scalar_of(es@[m].0)) is Some && al.contains(
                    scalar_of(es@[m].0)->0,
                ),
            forall|a: int, b: int|
                0 <= a < b < i ==> #[trigger] scalar_of(es@[a].0) != #[trigger] scalar_of(es@[b].0),
        decreases es.len() - i,
    {
        let t = match &es[i].0 {
            YamlNode::Scalar(t) => t,
            _ => {
                assert(scalar_of(es@[i as int].0) is None);
                return false;
            },
        };
        let tv = chars_of(t.as_str());
        let mut found = false;
        let mut q: usize = 0;
        while q < allowed.len()
            invariant
                q <= allowed.len(),
                al == allowed@.map_values(|v: Vec<char>| v@),
                found <==> exists|m: int| 0 <= m < q && al[m] == tv@,
            decreases allowed.len() - q,
        {
            if crate::text::seq_eq(&tv, &allowed[q]) {
                assert(al[q as int] == tv@);
                found = true;
            }
            q += 1;
        }
        if !found {
            proof {
                if al.contains(tv@) {
                    let m = choose|m: int| 0 <= m < al.len() && al[m] == tv@;
                    assert(al[m] == tv@);
                }
            }
            return false;
        }
        let mut a: usize = 0;
        while a < i
            invariant
                a <= i < es.len(),
                scalar_of(es@[i as int].0) is Some,
                forall|m: int| 0 <= m < i ==> (#[trigger] scalar_of(es@[m].0)) is Some,
                forall|m: int| 0 <= m < a ==> scalar_of(es@[m].0) != #[trigger] scalar_of(es@[i as int].0),
            decreases i - a,
        {
            assert(scalar_of(es@[a as int].0) is Some);
            if keys_eq(&es[a].0, &es[i].0) {
                return false;
            }
            a += 1;
        }
        i += 1;
    }
    true
}

fn text_field_exec(es: &Vec<(YamlNode, YamlNode)>, k: &Vec<char>) -> (r: Option<String>)
    ensures
        opt_text(r) == text_field(es@, k@),
{
    match lookup_exec(es, k) {
        Some(i) => scalar_exec(&es[i].1),
        None => None,
    }
}

fn opt_text_field_exec(es: &Vec<(YamlNode, YamlNode)>, k: &Vec<char>) -> (r: Result<Option<String>, ()>)
    ensures
        match r {
            Ok(o) => opt_text_field(es@, k@) == Some(opt_text(o)),
            Err(_) => opt_text_field(es@, k@) is None,
        },
{
    match lookup_exec(es, k) {
        Some(i) => match &es[i].1 {
            YamlNode::Null => Ok(None),
            YamlNode::Scalar(t) => Ok(Some(t.clone())),
            _ => Err(()),
        },
        None => Ok(None),
    }
}

fn scalar_list_exec(items: &Vec<YamlNode>) -> (r: Option<Vec<String>>)
    ensures
        match r {
            Some(v) => scalar_texts(items@) == Some(crate::index::strs_view(v@)),
            None => scalar_texts(items@) is None,
        },
{
    let mut out: Vec<String> = Vec::new();
    let mut k: usize = 0;
    while k < items.len()
        invariant
            k <= items.len(),
            out.len() == k,
            scalar_texts(items@.take(k as int)) == Some(crate::index::strs_view(out@)),
        decreases items.len() - k,
    {
        assert(items@.take(k + 1).drop_last() =~= items@.take(k as int));
        match scalar_exec(&items[k]) {
            Some(t) => {
                let ghost before = crate::index::strs_view(out@);
                out.push(t);
                assert(crate::index::strs_view(out@) =~= before.push(out@[k as int]@));
            },
            None => {
                proof {
                    lemma_scalar_texts_prefix(items@, k as int + 1);
                }
                return None;
            },
        }
        k += 1;
    }
    assert(items@.take(items.len() as int) =~= items@);
    Some(out)
}

/// A failure in a prefix is a failure of the whole list.
proof fn lemma_scalar_texts_prefix(items: Seq<YamlNode>, k: int)
    requires
        0 <= k <= items.len(),
        scalar_texts(items.take(k)) is None,
    ensures
        scalar_texts(items) is None,
    decreases items.len() - k,
{
    if k < items.len() {
        assert(items.take(k + 1).drop_last() =~= items.take(k));
        lemma_scalar_texts_prefix(items, k + 1);
    } else {
        assert(items.take(k) =~= items);
    }
}

proof fn lemma_attachments_prefix(items: Seq<YamlNode>, k: int)
    requires
        0 <= k <= items.len(),
        attachments_of(items.take(k)) is None,
    ensures
        attachments_of(items) is None,
    decreases items.len() - k,
{
    if k < items.len() {
        assert(items.take(k + 1).drop_last() =~= items.take(k));
        lemma_attachments_prefix(items, k + 1);
    } else {
        assert(items.take(k) =~= items);
    }
}

fn text_list_field_exec(es: &Vec<(YamlNode, YamlNode)>, k: &Vec<char>) -> (r: Option<Vec<String>>)
    ensures
        match r {
            Some(v) => text_list_field(es@, k@) == Some(crate::index::strs_view(v@)),
            None => text_list_field(es@, k@) is None,
        },
{
    match lookup_exec(es, k) {
        Some(i) => match &es[i].1 {
            YamlNode::Null => {
                let v: Vec<String> = Vec::new();
                assert(crate::index::strs_view(v@) =~= Seq::<Seq<char>>::empty());
                Some(v)
            },
            YamlNode::List(items) => scalar_list_exec(items),
            _ => None,
        },
        None => {
            let v: Vec<String> = Vec::new();
            assert(crate::index::strs_view(v@) =~= Seq::<Seq<char>>::empty());
            Some(v)
        },
    }
}

fn attachment_exec(n: &YamlNode) -> (r: Option<Attachment>)
    ensures
        match r {
            Some(a) => attachment_of(*n) == Some(attachment_view(a)),
            None => attachment_of(*n) is None,
        },
{
    let es = match n {
        YamlNode::Mapping(es) => es,
        _ => {
            return None;
        },
    };
    let kind_key = vec!['k', 'i', 'n', 'd'];
    let file_key = vec!['f', 'i', 'l', 'e'];
    let transcript_key = vec!['t', 'r', 'a', 'n', 's', 'c', 'r', 'i', 'p', 't'];
    assert(kind_key@ =~= key_kind());
    assert(file_key@ =~= key_file());
    assert(transcript_key@ =~= key_transcript());
    let kind = match text_field_exec(es, &kind_key) {
        Some(k) => k,
        None => {
            return None;
        },
    };
    let file = match text_field_exec(es, &file_key) {
        Some(f) => f,
        None => {
            return None;
        },
    };
    let kv = chars_of(kind.as_str());
    let image = vec!['i', 'm', 'a', 'g', 'e'];
    let audio = vec!['a', 'u', 'd', 'i', 'o'];
    assert(image@ =~= kind_image());
    assert(audio@ =~= kind_audio());
    if crate::text::seq_eq(&kv, &image) {
        let allowed = vec![kind_key, file_key];
        assert(allowed@.map_values(|v: Vec<char>| v@) =~= seq![key_kind(), key_file()]);
        if keys_ok_exec(es, &allowed) {
            Some(Attachment::Image { file })
        } else {
            None
        }
    } else if crate::text::seq_eq(&kv, &audio) {
        let allowed = vec![kind_key, file_key, transcript_key];
        assert(allowed@.map_values(|v: Vec<char>| v@) =~= seq![
            key_kind(),
            key_file(),
            key_transcript(),
        ]);
        if keys_ok_exec(es, &allowed) {
            match opt_text_field_exec(es, &allowed[2]) {
                Ok(t) => Some(Attachment::Audio { file, transcript: t }),
                Err(_) => None,
            }
        } else {
            None
        }
    } else {
        None
    }
}

fn attachments_field_exec(es: &Vec<(YamlNode, YamlNode)>) -> (r: Option<Vec<Attachment>>)
    ensures
        match r {
            Some(v) => attachments_field(es@) == Some(
                v@.map_values(|a: Attachment| attachment_view(a)),
            ),
            None => attachments_field(es@) is None,
        },
{
    let key = vec!['a', 't', 't', 'a', 'c', 'h', 'm', 'e', 'n', 't', 's'];
    assert(key@ =~= key_attachments());
    match lookup_exec(es, &key) {
        Some(i) => match &es[i].1 {
            YamlNode::Null => {
                let v: Vec<Attachment> = Vec::new();
                assert(v@.map_values(|a: Attachment| attachment_view(a)) =~= Seq::<AttachmentView>::empty());
                Some(v)
            },
            YamlNode::List(items) => {
                let mut out: Vec<Attachment> = Vec::new();
                let mut k: usize = 0;
                while k < items.len()
                    invariant
                        k <= items.len(),
                        out.len() == k,
                        es@[i as int].1 == YamlNode::List(*items),
                        lookup(es@, key_attachments(), 0) == Some(es@[i as int].1),
                        attachments_of(items@.take(k as int)) == Some(
                            out@.map_values(|a: Attachment| attachment_view(a)),
                        ),
                    decreases items.len() - k,
                {
                    assert(items@.take(k + 1).drop_last() =~= items@.take(k as int));
                    match attachment_exec(&items[k]) {
                        Some(a) => {
                            let ghost before = out@.map_values(|a: Attachment| attachment_view(a));
                            out.push(a);
                            assert(out@.map_values(|a: Attachment| attachment_view(a)) =~= before.push(
                                attachment_view(out@[k as int]),
                            ));
                        },
                        None => {
                            proof {
                                lemma_attachments_prefix(items@, k as int + 1);
                            }
                            return None;
                        },
                    }
                    k += 1;
                }
                assert(items@.take(items.len() as int) =~= items@);
                Some(out)
            },
            _ => None,
        },
        None => {
            let v: Vec<Attachment> = Vec::new();
            assert(v@.map_values(|a: Attachment| attachment_view(a)) =~= Seq::<AttachmentView>::empty());
            Some(v)
        },
    }
}

/// Decode a loaded document into the closed schema.
pub fn decode_frontmatter(doc: &YamlNode) -> (r: Result<Frontmatter, String>)
    ensures
        r is Ok <==> frontmatter_of(*doc) is Some,
        r matches Ok(fm) ==> frontmatter_of(*doc) == Some(frontmatter_view(fm)),
{
    let es = match doc {
        YamlNode::Mapping(es) => es,
        _ => {
            return Err(String::from_str("invalid type: expected struct Frontmatter"));
        },
    };
    let k_id = vec!['i', 'd'];
    let k_created = vec!['c', 'r', 'e', 'a', 't', 'e', 'd'];
    let k_updated = vec!['u', 'p', 'd', 'a', 't', 'e', 'd'];
    let k_title = vec!['t', 'i', 't', 'l', 'e'];
    let k_tags = vec!['t', 'a', 'g', 's'];
    let k_links = vec!['l', 'i', 'n', 'k', 's'];
    let k_atts = vec!['a', 't', 't', 'a', 'c', 'h', 'm', 'e', 'n', 't', 's'];
    assert(k_id@ =~= key_id());
    assert(k_created@ =~= key_created());
    assert(k_updated@ =~= key_updated());
    assert(k_title@ =~= key_title());
    assert(k_tags@ =~= key_tags());
    assert(k_links@ =~= key_links());
    assert(k_atts@ =~= key_attachments());
    let allowed = vec![
        k_id.clone(),
        k_created.clone(),
        k_updated.clone(),
        k_title.clone(),
        k_tags.clone(),
        k_links.clone(),
        k_atts.clone(),
    ];
    assert(allowed@.map_values(|v: Vec<char>| v@) =~= schema_keys());
    if !keys_ok_exec(es, &allowed) {
        return Err(String::from_str("unknown or duplicate field"));
    }
    let id_text = match text_field_exec(es, &k_id) {
        Some(t) => t,
        None => {
            return Err(String::from_str("missing field `id`"));
        },
    };
    let created = match text_field_exec(es, &k_created) {
        Some(t) => t,
        None => {
            return Err(String::from_str("missing field `created`"));
        },
    };
    let updated = match text_field_exec(es, &k_updated) {
        Some(t) => t,
        None => {
            return Err(String::from_str("missing field `updated`"));
        },
    };
    let title = match opt_text_field_exec(es, &k_title) {
        Ok(t) => t,
        Err(_) => {
            return Err(String::from_str("invalid type for `title`"));
        },
    };
    let tags = match text_list_field_exec(es, &k_tags) {
        Some(v) => v,
        None => {
            return Err(String::from_str("invalid type for `tags`"));
        },
    };
    let links = match text_list_field_exec(es, &k_links) {
        Some(v) => v,
        None => {
            return Err(String::from_str("invalid type for `links`"));
        },
    };
    let attachments = match attachments_field_exec(es) {
        Some(v) => v,
        None => {
            return Err(String::from_str("invalid attachment"));
        },
    };
    let id = match NoteId::parse(id_text.as_str()) {
        Ok(id) => id,
        Err(_) => {
            return Err(String::from_str("invalid ULID in `id`"));
        },
    };
    let fm = Frontmatter { id, created, updated, title, tags, links, attachments };
    proof {
        let v = frontmatter_view(fm);
        let want = frontmatter_of(*doc)->0;
        assert(v.tags =~= want.tags);
        assert(v.links =~= want.links);
        assert(v.attachments =~= want.attachments);
    }
    Ok(fm)
}

// ───────────────────────── parsing ─────────────────────────────────────

/// The YAML text and the body of a source, when both fences are there.
pub open spec fn split_parts(source: Seq<char>) -> Option<(Seq<char>, Seq<char>)> {
    match after_opening_fence(source) {
        Some(rest) => match closing_fence_at(rest) {
            Some(c) => Some((rest.take(c), body_after_fence(rest.skip(c)))),
            None => None,
        },
        None => None,
    }
}

/// The YAML uses anchors or aliases (`&`, `*`).
pub open spec fn has_anchor_marks(y: Seq<char>) -> bool {
    y.contains('&') || y.contains('*')
}

/// The YAML uses an explicit tag (`!!`).
pub open spec fn has_explicit_tag(y: Seq<char>) -> bool {
    exists|i: int| 0 <= i < y.len() - 1 && #[trigger] y[i] == '!' && y[i + 1] == '!'
}

fn has_bang_pair(v: &Vec<char>) -> (r: bool)
    ensures
        r == has_explicit_tag(v@),
{
    let mut k: usize = 0;
    while k < v.len() && k + 1 < v.len()
        invariant
            k <= v.len(),
            forall|i: int| 0 <= i < k && i < v.len() - 1 ==> !(#[trigger] v@[i] == '!' && v@[i + 1] == '!'),
        decreases v.len() - k,
    {
        if v[k] == '!' && v[k + 1] == '!' {
            return true;
        }
        k += 1;
    }
    false
}

fn has_char_exec(v: &Vec<char>, c: char) -> (r: bool)
    ensures
        r == v@.contains(c),
{
    let mut k: usize = 0;
    while k < v.len()
        invariant
            k <= v.len(),
            forall|m: int| 0 <= m < k ==> v@[m] != c,
        decreases v.len() - k,
    {
        if v[k] == c {
            assert(v@[k as int] == c);
            return true;
        }
        k += 1;
    }
    false
}

/// Parse a `.md` file containing frontmatter into the typed schema and the
/// body. Anchors and explicit tags are rejected before the YAML is loaded;
/// the loaded document must fit the closed schema.
pub fn parse(source: &str) -> (r: Result<(Frontmatter, String), FrontmatterError>)
    ensures
        after_opening_fence(source@) is None ==> (r matches Err(e) && e is MissingOpeningFence),
        after_opening_fence(source@) is Some && split_parts(source@) is None ==> (r matches Err(e)
            && e is MissingClosingFence),
        split_parts(source@) matches Some((y, b)) ==> {
            if has_anchor_marks(y) || has_explicit_tag(y) {
                (r matches Err(e) && e is DisallowedYaml)
            } else {
                match yaml_document(y) {
                    None => (r matches Err(e) && e is Yaml),
                    Some(doc) => match frontmatter_of(doc) {
                        None => (r matches Err(e) && e is Yaml),
                        Some(v) => (r matches Ok((fm, body)) && frontmatter_view(fm) == v && body@ == b),
                    },
                }
            }
        },
{
    let (yaml, body) = split_frontmatter(source)?;
    let yv = chars_of(yaml.as_str());
    if has_char_exec(&yv, '&') || has_char_exec(&yv, '*') {
        return Err(FrontmatterError::DisallowedYaml("YAML anchors (&/*)"));
    }
    if has_bang_pair(&yv) {
        return Err(FrontmatterError::DisallowedYaml("YAML explicit tags (!!)"));
    }
    let doc = match load_yaml(yaml.as_str()) {
        Ok(d) => d,
        Err(e) => {
            return Err(FrontmatterError::Yaml(yaml_error_text(&e)));
        },
    };
    match decode_frontmatter(&doc) {
        Ok(fm) => Ok((fm, body)),
        Err(msg) => Err(FrontmatterError::Yaml(msg)),
    }
}

} // verus!
