use vstd::prelude::*;

verus! {

/// Relies on std's `String::push`: the character is appended at the end.
pub assume_specification[ String::push ](s: &mut String, ch: char)
    ensures
        final(s)@ == old(s)@.push(ch),
;

/// The separator that stands for every character that cannot appear in an identifier.
pub open spec fn is_separator(c: char) -> bool {
    c == '_'
}

pub open spec fn is_ascii_alnum(c: char) -> bool {
    ('a' <= c && c <= 'z') || ('A' <= c && c <= 'Z') || ('0' <= c && c <= '9')
}

pub open spec fn ascii_lower(c: char) -> char {
    if 'A' <= c && c <= 'Z' {
        ((c as u32) + 32) as char
    } else {
        c
    }
}

/// What a single character of a display name becomes in an identifier.
pub open spec fn escape_char(c: char) -> char {
    if is_ascii_alnum(c) {
        ascii_lower(c)
    } else {
        '_'
    }
}

/// Escapes every character, then keeps only the first separator of each run.
pub open spec fn squeeze(s: Seq<char>) -> Seq<char>
    decreases s.len(),
{
    if s.len() == 0 {
        Seq::empty()
    } else {
        let p = squeeze(s.drop_last());
        let c = escape_char(s.last());
        if is_separator(c) && p.len() > 0 && is_separator(p.last()) {
            p
        } else {
            p.push(c)
        }
    }
}

pub open spec fn trim_trailing_separator(s: Seq<char>) -> Seq<char> {
    if s.len() > 0 && is_separator(s.last()) {
        s.drop_last()
    } else {
        s
    }
}

pub open spec fn empty_name() -> Seq<char> {
    seq!['e', 'm', 'p', 't', 'y']
}

/// The identifier fragment for a display name.
pub open spec fn escape_spec(s: Seq<char>) -> Seq<char> {
    if s.len() == 0 {
        empty_name()
    } else {
        trim_trailing_separator(squeeze(s))
    }
}

/// No two separators stand side by side.
pub open spec fn no_double_separator(s: Seq<char>) -> bool {
    forall|i: int| 0 <= i < s.len() - 1 ==> !(#[trigger] is_separator(s[i]) && is_separator(s[i + 1]))
}

/// Only lowercase ASCII letters, digits and single separators, with none at either end.
pub open spec fn is_escaped_form(s: Seq<char>) -> bool {
    &&& s.len() > 0
    &&& forall|i: int| 0 <= i < s.len() ==> {
        let c = #[trigger] s[i];
        ('a' <= c && c <= 'z') || ('0' <= c && c <= '9') || is_separator(c)
    }
    &&& no_double_separator(s)
    &&& !is_separator(s[0])
    &&& !is_separator(s.last())
}

fn escape_one(c: char) -> (r: char)
    ensures
        r == escape_char(c),
{
    if 'A' <= c && c <= 'Z' {
        let b = c as u32 + 32;
        assert(b < 128);
        (b as u8) as char
    } else if ('a' <= c && c <= 'z') || ('0' <= c && c <= '9') {
        c
    } else {
        '_'
    }
}

proof fn lemma_squeeze_no_double(s: Seq<char>)
    ensures
        no_double_separator(squeeze(s)),
    decreases s.len(),
{
    if s.len() > 0 {
        lemma_squeeze_no_double(s.drop_last());
    }
}

/// Turns a display name into an identifier fragment: the empty name becomes
/// `empty`; otherwise letters are lowercased, every other character becomes a
/// separator, runs of separators collapse into one and a trailing one is dropped.
pub fn escape_name(input: &str) -> (r: String)
    ensures
        r@ == escape_spec(input@),
{
    let n = input.unicode_len();
    if n == 0 {
        let r = "empty".to_owned();
        proof {
            reveal_strlit("empty");
            assert(r@ =~= empty_name());
        }
        return r;
    }
    let mut out: Vec<char> = Vec::new();
    let mut i: usize = 0;
    while i < n
        invariant
            n == input@.len(),
            i <= n,
            out@ == squeeze(input@.subrange(0, i as int)),
        decreases n - i,
    {
        let c = escape_one(input.get_char(i));
        proof {
            assert(input@.subrange(0, i + 1).drop_last() =~= input@.subrange(0, i as int));
        }
        if c == '_' && out.len() > 0 && out[out.len() - 1] == '_' {
        } else {
            out.push(c);
        }
        i += 1;
    }
    assert(input@.subrange(0, n as int) =~= input@);
    let mut end: usize = out.len();
    if end > 0 && out[end - 1] == '_' {
        end -= 1;
    }
    let mut r = String::new();
    let mut j: usize = 0;
    while j < end
        invariant
            end <= out@.len(),
            j <= end,
            r@ =~= out@.subrange(0, j as int),
        decreases end - j,
    {
        r.push(out[j]);
        j += 1;
    }
    proof {
        assert(trim_trailing_separator(out@) =~= out@.subrange(0, end as int));
    }
    r
}

/// The escaped form of any name never holds two separators side by side, nor
/// ends with one.
pub proof fn law_escape_well_formed(s: Seq<char>)
    ensures
        no_double_separator(escape_spec(s)),
        escape_spec(s).len() > 0 ==> !is_separator(escape_spec(s).last()),
{
    if s.len() > 0 {
        let q = squeeze(s);
        lemma_squeeze_no_double(s);
        let t = trim_trailing_separator(q);
        assert forall|i: int| 0 <= i < t.len() - 1 implies !(#[trigger] is_separator(t[i]) && is_separator(t[i + 1])) by {
            assert(t[i] == q[i] && t[i + 1] == q[i + 1]);
        }
        if t.len() > 0 && q.len() > 0 && is_separator(q.last()) {
            assert(t.last() == q[q.len() - 2]);
        }
    } else {
        assert(no_double_separator(empty_name()));
    }
}

proof fn lemma_squeeze_fixed(s: Seq<char>)
    requires
        forall|i: int| 0 <= i < s.len() ==> {
            let c = #[trigger] s[i];
            ('a' <= c && c <= 'z') || ('0' <= c && c <= '9') || is_separator(c)
        },
        no_double_separator(s),
    ensures
        squeeze(s) == s,
    decreases s.len(),
{
    if s.len() > 0 {
        let p = s.drop_last();
        assert forall|i: int| 0 <= i < p.len() - 1 implies !(#[trigger] is_separator(p[i]) && is_separator(p[i + 1])) by {
            assert(p[i] == s[i] && p[i + 1] == s[i + 1]);
        }
        lemma_squeeze_fixed(p);
        assert(s[s.len() - 1] == s.last());
        if s.len() > 1 {
            assert(p.last() == s[s.len() - 2]);
        }
        assert(p.push(s.last()) =~= s);
    }
}

/// A name that is already in escaped form escapes to itself.
pub proof fn law_escape_keeps_escaped(s: Seq<char>)
    requires
        is_escaped_form(s),
    ensures
        escape_spec(s) == s,
{
    lemma_squeeze_fixed(s);
}

} // verus!
