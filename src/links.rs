use vstd::prelude::*;
use vstd::string::StringExecFns;

use crate::chars::{chars_of, push_char};
use crate::content::{count_matches, count_from, lemma_count_from_bound, StructTextEntity, TextType};
use crate::rank::{add_to_tally, lemma_represents_ext, represents};

verus! {

#[verifier::external_type_specification]
#[verifier::external_body]
pub struct ExParseError(url::ParseError);

/// Whether `s` parses as an absolute URL.
pub uninterp spec fn url_parses(s: Seq<char>) -> bool;

/// The domain of the URL parsed from `s`, when its host is a domain name.
pub uninterp spec fn url_domain(s: Seq<char>) -> Option<Seq<char>>;

pub open spec fn opt_view(o: Option<String>) -> Option<Seq<char>> {
    match o {
        Some(s) => Some(s@),
        None => None,
    }
}

/// Relies on `url::Url::parse`, which succeeds exactly on absolute URLs, and
/// on `url::Url::domain`, the host of the parsed URL when it is a domain name.
#[verifier::external_body]
fn resolve_url(s: &str) -> (r: Result<Option<String>, url::ParseError>)
    ensures
        r is Ok <==> url_parses(s@),
        r matches Ok(d) ==> opt_view(d) == url_domain(s@),
{
    url::Url::parse(s).map(|u| u.domain().map(|d| d.to_string()))
}

/// A link could not be resolved to a URL.
#[derive(Debug, Clone, Copy, PartialEq, Eq, Structural)]
pub enum LinkError {
    UrlResolution,
}

pub open spec fn scheme_separator() -> Seq<char> {
    seq![':', '/', '/']
}

pub open spec fn http_prefix() -> Seq<char> {
    seq!['h', 't', 't', 'p', ':', '/', '/']
}

pub open spec fn is_link_kind(e: StructTextEntity) -> bool {
    e.text_type == TextType::Link || e.text_type == TextType::TextLink
}

/// The URL text a link fragment points to: a bare link gets `http://` when it
/// names no scheme; a text link points to its target.
pub open spec fn link_url(e: StructTextEntity) -> Option<Seq<char>> {
    if e.text_type == TextType::Link {
        if count_from(e.text@, scheme_separator(), 0) > 0 {
            Some(e.text@)
        } else {
            Some(http_prefix() + e.text@)
        }
    } else {
        opt_view(e.href)
    }
}

/// A fragment that is no link, or a link whose URL parses.
pub open spec fn entity_resolves(e: StructTextEntity) -> bool {
    is_link_kind(e) ==> (link_url(e) is Some && url_parses(link_url(e)->0))
}

pub open spec fn entities_resolve(es: Seq<StructTextEntity>) -> bool {
    forall|j: int| 0 <= j < es.len() ==> entity_resolves(#[trigger] es[j])
}

/// The number of link fragments in `es`.
pub open spec fn link_count(es: Seq<StructTextEntity>) -> int
    decreases es.len(),
{
    if es.len() == 0 {
        0
    } else {
        link_count(es.drop_last()) + if is_link_kind(es.last()) {
            1int
        } else {
            0int
        }
    }
}

/// The number of link fragments in `es` whose URL has the domain `d`.
pub open spec fn domain_count(es: Seq<StructTextEntity>, d: Seq<char>) -> int
    decreases es.len(),
{
    if es.len() == 0 {
        0
    } else {
        domain_count(es.drop_last(), d) + if is_link_kind(es.last()) && link_url(es.last()) is Some
            && url_domain(link_url(es.last())->0) == Some(d) {
            1int
        } else {
            0int
        }
    }
}

pub proof fn lemma_domain_count_bound(es: Seq<StructTextEntity>, d: Seq<char>)
    ensures
        0 <= domain_count(es, d) <= link_count(es),
    decreases es.len(),
{
    if es.len() > 0 {
        lemma_domain_count_bound(es.drop_last(), d);
    }
}

/// The URL text of a link fragment, or `None` for a text link without target.
fn link_url_of(e: &StructTextEntity) -> (r: Option<String>)
    requires
        is_link_kind(*e),
    ensures
        opt_view(r) == link_url(*e),
{
    if e.text_type == TextType::Link {
        proof {
            reveal_strlit("://");
        }
        let cs = chars_of(e.text.as_str());
        let n_chars = cs.len();
        assert(e.text@.len() == n_chars);
        proof {
            lemma_count_from_bound(e.text@, "://"@, 0);
        }
        let n = count_matches(e.text.as_str(), "://");
        assert("://"@ =~= scheme_separator());
        if n > 0 {
            Some(e.text.clone())
        } else {
            let mut out = String::new();
            push_char(&mut out, 'h');
            push_char(&mut out, 't');
            push_char(&mut out, 't');
            push_char(&mut out, 'p');
            push_char(&mut out, ':');
            push_char(&mut out, '/');
            push_char(&mut out, '/');
            assert(out@ =~= http_prefix());
            out.append(e.text.as_str());
            Some(out)
        }
    } else {
        match &e.href {
            Some(h) => Some(h.clone()),
            None => None,
        }
    }
}

/// Resolves the link fragments of one message: counts them, and adds one to
/// `domains` for each whose URL has a domain.
pub(crate) fn tally_links(
    es: &Vec<&StructTextEntity>,
    domains: &mut Vec<(String, usize)>,
    Ghost(ents): Ghost<Seq<StructTextEntity>>,
    Ghost(base): Ghost<spec_fn(Seq<char>) -> int>,
) -> (r: Result<usize, LinkError>)
    requires
        es@.len() == ents.len(),
        forall|j: int| 0 <= j < es@.len() ==> *es@[j] == ents[j],
        represents(old(domains)@, base),
        forall|d: Seq<char>| 0 <= #[trigger] base(d) && base(d) + domain_count(ents, d) <= usize::MAX,
        link_count(ents) <= usize::MAX,
    ensures
        r is Ok <==> entities_resolve(ents),
        r matches Ok(n) ==> n == link_count(ents) && represents(
            final(domains)@,
            |d: Seq<char>| base(d) + domain_count(ents, d),
        ),
{
    let mut n: usize = 0;
    let mut j: usize = 0;
    while j < es.len()
        invariant
            j <= es@.len(),
            es@.len() == ents.len(),
            forall|j: int| 0 <= j < es@.len() ==> *es@[j] == ents[j],
            forall|d: Seq<char>| 0 <= #[trigger] base(d) && base(d) + domain_count(ents, d) <= usize::MAX,
            link_count(ents) <= usize::MAX,
            entities_resolve(ents.take(j as int)),
            n == link_count(ents.take(j as int)),
            represents(domains@, |d: Seq<char>| base(d) + domain_count(ents.take(j as int), d)),
        decreases es@.len() - j,
    {
        let e: &StructTextEntity = es[j];
        let ghost f = |d: Seq<char>| base(d) + domain_count(ents.take(j as int), d);
        let ghost g = |d: Seq<char>| base(d) + domain_count(ents.take(j + 1), d);
        proof {
            assert(ents.take(j + 1).drop_last() =~= ents.take(j as int));
            assert(ents.take(j + 1).last() == *e);
            lemma_prefix_counts(ents, j + 1);
        }
        if e.text_type == TextType::Link || e.text_type == TextType::TextLink {
            let target = match link_url_of(e) {
                Some(t) => t,
                None => {
                    assert(!entity_resolves(ents[j as int]));
                    return Err(LinkError::UrlResolution);
                },
            };
            match resolve_url(target.as_str()) {
                Err(_) => {
                    assert(!entity_resolves(ents[j as int]));
                    return Err(LinkError::UrlResolution);
                },
                Ok(Some(d)) => {
                    proof {
                        lemma_prefix_domain(ents, j + 1, d@);
                        lemma_prefix_domain(ents, j as int, d@);
                        assert(0 <= base(d@));
                    }
                    add_to_tally(domains, d, 1, Ghost(f));
                    proof {
                        lemma_represents_ext(
                            domains@,
                            |k: Seq<char>| f(k) + if k == d@ { 1int } else { 0int },
                            g,
                        );
                    }
                },
                Ok(None) => {
                    proof {
                        lemma_represents_ext(domains@, f, g);
                    }
                },
            }
            n = n + 1;
        } else {
            proof {
                lemma_represents_ext(domains@, f, g);
            }
        }
        proof {
            assert forall|k: int| 0 <= k < j + 1 implies entity_resolves(#[trigger] ents.take(j + 1)[k]) by {
                if k < j {
                    assert(ents.take(j + 1)[k] == ents.take(j as int)[k]);
                }
            }
        }
        j = j + 1;
    }
    assert(ents.take(j as int) =~= ents);
    Ok(n)
}

proof fn lemma_prefix_counts(ents: Seq<StructTextEntity>, j: int)
    requires
        0 <= j <= ents.len(),
    ensures
        0 <= link_count(ents.take(j)) <= link_count(ents),
    decreases ents.len(),
{
    if j < ents.len() {
        lemma_prefix_counts(ents.drop_last(), j);
        assert(ents.drop_last().take(j) =~= ents.take(j));
    } else {
        assert(ents.take(j) =~= ents);
        lemma_domain_count_bound(ents, Seq::empty());
    }
}

proof fn lemma_prefix_domain(ents: Seq<StructTextEntity>, j: int, d: Seq<char>)
    requires
        0 <= j <= ents.len(),
    ensures
        0 <= domain_count(ents.take(j), d) <= domain_count(ents, d),
    decreases ents.len(),
{
    if j < ents.len() {
        lemma_prefix_domain(ents.drop_last(), j, d);
        assert(ents.drop_last().take(j) =~= ents.take(j));
    } else {
        assert(ents.take(j) =~= ents);
        lemma_domain_count_bound(ents, d);
    }
}

} // verus!
