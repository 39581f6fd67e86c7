use vstd::prelude::*;

use crate::chars::chars_of;

verus! {

/// The kind of a typed text fragment; `Unknown` absorbs any unrecognised tag.
#[derive(Debug, Clone, Copy, PartialEq, Eq, Structural, Hash)]
pub enum TextType {
    Mention,
    Hashtag,
    BotCommand,
    Link,
    Email,
    Bold,
    Italic,
    Code,
    Pre,
    MentionName,
    Phone,
    Cashtag,
    Underline,
    Strikethrough,
    Blockquote,
    BankCard,
    Spoiler,
    TextLink,
    Unknown,
}

/// A typed fragment. `href` holds the absolute link target of a text link.
#[derive(Debug)]
pub struct StructTextEntity {
    pub text_type: TextType,
    pub text: String,
    pub href: Option<String>,
}

/// One fragment of a message's content.
#[derive(Debug)]
pub enum TextEntity {
    Plain(String),
    Struct(StructTextEntity),
}

/// A message's content: a flat string or a sequence of fragments.
#[derive(Debug)]
pub enum Text {
    Plain(String),
    Array(Vec<TextEntity>),
}

/// Non-overlapping occurrences of a non-empty `p` in `t`, scanning left to right
/// from position `i`.
pub open spec fn count_from(t: Seq<char>, p: Seq<char>, i: int) -> nat
    decreases t.len() - i,
{
    if p.len() == 0 || i < 0 || i + p.len() > t.len() {
        0
    } else if t.subrange(i, i + p.len()) == p {
        1 + count_from(t, p, i + p.len())
    } else {
        count_from(t, p, i + 1)
    }
}

/// Non-overlapping occurrences of `p` in `t`; the empty pattern matches at
/// every character boundary.
pub open spec fn occurrences(t: Seq<char>, p: Seq<char>) -> nat {
    if p.len() == 0 {
        t.len() + 1
    } else {
        count_from(t, p, 0)
    }
}

pub open spec fn entity_occurrences(e: TextEntity, p: Seq<char>) -> nat {
    match e {
        TextEntity::Plain(s) => occurrences(s@, p),
        TextEntity::Struct(x) => occurrences(x.text@, p),
    }
}

pub open spec fn fragments_occurrences(fs: Seq<TextEntity>, p: Seq<char>) -> nat
    decreases fs.len(),
{
    if fs.len() == 0 {
        0
    } else {
        fragments_occurrences(fs.drop_last(), p) + entity_occurrences(fs.last(), p)
    }
}

/// Occurrences of `p` in all the textual material of a content.
pub open spec fn text_occurrences(t: Text, p: Seq<char>) -> nat {
    match t {
        Text::Plain(s) => occurrences(s@, p),
        Text::Array(v) => fragments_occurrences(v@, p),
    }
}

/// The typed fragments among `fs`, in order.
pub open spec fn struct_fragments(fs: Seq<TextEntity>) -> Seq<StructTextEntity>
    decreases fs.len(),
{
    if fs.len() == 0 {
        Seq::empty()
    } else {
        match fs.last() {
            TextEntity::Plain(_) => struct_fragments(fs.drop_last()),
            TextEntity::Struct(x) => struct_fragments(fs.drop_last()).push(x),
        }
    }
}

/// The typed fragments of a content; none for flat text.
pub open spec fn struct_entities(t: Text) -> Seq<StructTextEntity> {
    match t {
        Text::Plain(_) => Seq::empty(),
        Text::Array(v) => struct_fragments(v@),
    }
}

pub proof fn lemma_count_from_bound(t: Seq<char>, p: Seq<char>, i: int)
    requires
        0 <= i <= t.len(),
    ensures
        count_from(t, p, i) <= t.len() - i,
    decreases t.len() - i,
{
    if p.len() > 0 && i + p.len() <= t.len() {
        if t.subrange(i, i + p.len()) == p {
            lemma_count_from_bound(t, p, i + p.len());
        } else {
            lemma_count_from_bound(t, p, i + 1);
        }
    }
}

/// Counts the non-overlapping occurrences of `pattern` in `text`.
pub fn count_matches(text: &str, pattern: &str) -> (r: usize)
    requires
        occurrences(text@, pattern@) <= usize::MAX,
    ensures
        r == occurrences(text@, pattern@),
{
    let t = chars_of(text);
    let p = chars_of(pattern);
    let n = t.len();
    let m = p.len();
    if m == 0 {
        return n + 1;
    }
    let mut i: usize = 0;
    let mut acc: usize = 0;
    while m <= n - i
        invariant
            t@ == text@,
            p@ == pattern@,
            n == t@.len(),
            m == p@.len(),
            m > 0,
            i <= n,
            acc <= i,
            acc + count_from(t@, p@, i as int) == count_from(t@, p@, 0),
        decreases n - i,
    {
        let mut j: usize = 0;
        while j < m && t[i + j] == p[j]
            invariant
                i + m <= n,
                n == t@.len(),
                m == p@.len(),
                j <= m,
                t@.subrange(i as int, i + j) == p@.subrange(0, j as int),
            decreases m - j,
        {
            j = j + 1;
            assert(t@.subrange(i as int, i + j) =~= p@.subrange(0, j as int));
        }
        if j == m {
            assert(p@.subrange(0, m as int) =~= p@);
            acc = acc + 1;
            i = i + m;
        } else {
            assert(t@.subrange(i as int, i + m)[j as int] != p@[j as int]);
            i = i + 1;
        }
    }
    acc
}

impl TextEntity {
    /// Occurrences of `pattern` in the fragment's text, whatever its kind.
    pub fn count(&self, pattern: &str) -> (r: usize)
        requires
            entity_occurrences(*self, pattern@) <= usize::MAX,
        ensures
            r == entity_occurrences(*self, pattern@),
    {
        match self {
            TextEntity::Plain(s) => count_matches(s.as_str(), pattern),
            TextEntity::Struct(x) => count_matches(x.text.as_str(), pattern),
        }
    }
}

proof fn lemma_fragments_prefix(fs: Seq<TextEntity>, p: Seq<char>, i: int)
    requires
        0 <= i <= fs.len(),
    ensures
        fragments_occurrences(fs.take(i), p) <= fragments_occurrences(fs, p),
    decreases fs.len(),
{
    if i < fs.len() {
        lemma_fragments_prefix(fs.drop_last(), p, i);
        assert(fs.drop_last().take(i) =~= fs.take(i));
    } else {
        assert(fs.take(i) =~= fs);
    }
}

impl Text {
    /// Occurrences of `pattern` in all the textual material of the content.
    pub fn count(&self, pattern: &str) -> (r: usize)
        requires
            text_occurrences(*self, pattern@) <= usize::MAX,
        ensures
            r == text_occurrences(*self, pattern@),
    {
        match self {
            Text::Plain(s) => count_matches(s.as_str(), pattern),
            Text::Array(v) => {
                let mut acc: usize = 0;
                let mut i: usize = 0;
                while i < v.len()
                    invariant
                        i <= v@.len(),
                        fragments_occurrences(v@, pattern@) <= usize::MAX,
                        acc == fragments_occurrences(v@.take(i as int), pattern@),
                    decreases v@.len() - i,
                {
                    proof {
                        lemma_fragments_prefix(v@, pattern@, i + 1);
                        assert(v@.take(i + 1).drop_last() =~= v@.take(i as int));
                    }
                    let c = v[i].count(pattern);
                    acc = acc + c;
                    i = i + 1;
                }
                assert(v@.take(i as int) =~= v@);
                acc
            },
        }
    }

    /// The typed fragments of the content, in order; none for flat text.
    pub fn as_entities(&self) -> (r: Vec<&StructTextEntity>)
        ensures
            r@.len() == struct_entities(*self).len(),
            forall|i: int| 0 <= i < r@.len() ==> *r@[i] == struct_entities(*self)[i],
    {
        let mut r: Vec<&StructTextEntity> = Vec::new();
        match self {
            Text::Plain(_) => {},
            Text::Array(v) => {
                let mut i: usize = 0;
                while i < v.len()
                    invariant
                        i <= v@.len(),
                        r@.len() == struct_fragments(v@.take(i as int)).len(),
                        forall|j: int|
                            0 <= j < r@.len() ==> *r@[j] == struct_fragments(v@.take(i as int))[j],
                    decreases v@.len() - i,
                {
                    assert(v@.take(i + 1).drop_last() =~= v@.take(i as int));
                    match &v[i] {
                        TextEntity::Plain(_) => {},
                        TextEntity::Struct(x) => {
                            r.push(x);
                        },
                    }
                    i = i + 1;
                }
                assert(v@.take(i as int) =~= v@);
            },
        }
        r
    }
}

} // verus!
