use vstd::prelude::*;

use crate::content::{struct_entities, text_occurrences};
use crate::links::{
    domain_count, entities_resolve, lemma_domain_count_bound, link_count, tally_links, LinkError,
};
use crate::message::{sender_id_spec, sender_name_spec, ChatData, Message, MessageType};
use crate::rank::{add_to_tally, lemma_represents_ext, rank, ranked, represents};

verus! {

/// The report pipeline's configuration over one chat export.
pub struct Analyzer<'a> {
    pub data: &'a ChatData,
    pub wrap_with: Option<&'a str>,
    pub take_num: usize,
    pub opt_out: &'a [i64],
}

/// A ranked report: its total and its rows, each a key with its tally.
pub struct Ranking {
    pub total: usize,
    pub rows: Vec<(String, usize)>,
}

/// The two rankings of the link report, over one shared total.
pub struct LinkRanking {
    pub total: usize,
    pub users: Vec<(String, usize)>,
    pub domains: Vec<(String, usize)>,
}

/// An ordinary message whose sender is not excluded.
pub open spec fn eligible(m: Message, opt_out: Seq<i64>) -> bool {
    match m.msg_type {
        MessageType::Message { from_id, .. } => !opt_out.contains(from_id.num_spec()),
        MessageType::Service => false,
    }
}

/// The number of eligible messages in `ms` sent under the label `k`.
pub open spec fn sender_tally(ms: Seq<Message>, opt_out: Seq<i64>, k: Seq<char>) -> int
    decreases ms.len(),
{
    if ms.len() == 0 {
        0
    } else {
        sender_tally(ms.drop_last(), opt_out, k) + if eligible(ms.last(), opt_out)
            && sender_name_spec(ms.last()) == Some(k) {
            1int
        } else {
            0int
        }
    }
}

/// The occurrences of `p` in the eligible messages of `ms` sent under the label `k`.
pub open spec fn substring_tally(ms: Seq<Message>, opt_out: Seq<i64>, p: Seq<char>, k: Seq<char>) -> int
    decreases ms.len(),
{
    if ms.len() == 0 {
        0
    } else {
        substring_tally(ms.drop_last(), opt_out, p, k) + if eligible(ms.last(), opt_out)
            && sender_name_spec(ms.last()) == Some(k) {
            text_occurrences(ms.last().text, p) as int
        } else {
            0int
        }
    }
}

/// The occurrences of `p` in all the eligible messages of `ms`.
pub open spec fn substring_total(ms: Seq<Message>, opt_out: Seq<i64>, p: Seq<char>) -> int
    decreases ms.len(),
{
    if ms.len() == 0 {
        0
    } else {
        substring_total(ms.drop_last(), opt_out, p) + if eligible(ms.last(), opt_out) {
            text_occurrences(ms.last().text, p) as int
        } else {
            0int
        }
    }
}

/// The link fragments in the eligible messages of `ms` sent under the label `k`.
pub open spec fn link_user_tally(ms: Seq<Message>, opt_out: Seq<i64>, k: Seq<char>) -> int
    decreases ms.len(),
{
    if ms.len() == 0 {
        0
    } else {
        link_user_tally(ms.drop_last(), opt_out, k) + if eligible(ms.last(), opt_out)
            && sender_name_spec(ms.last()) == Some(k) {
            link_count(struct_entities(ms.last().text))
        } else {
            0int
        }
    }
}

/// The link fragments in the eligible messages of `ms` whose URL has the domain `d`.
pub open spec fn link_domain_tally(ms: Seq<Message>, opt_out: Seq<i64>, d: Seq<char>) -> int
    decreases ms.len(),
{
    if ms.len() == 0 {
        0
    } else {
        link_domain_tally(ms.drop_last(), opt_out, d) + if eligible(ms.last(), opt_out) {
            domain_count(struct_entities(ms.last().text), d)
        } else {
            0int
        }
    }
}

/// The link fragments in all the eligible messages of `ms`.
pub open spec fn link_total(ms: Seq<Message>, opt_out: Seq<i64>) -> int
    decreases ms.len(),
{
    if ms.len() == 0 {
        0
    } else {
        link_total(ms.drop_last(), opt_out) + if eligible(ms.last(), opt_out) {
            link_count(struct_entities(ms.last().text))
        } else {
            0int
        }
    }
}

/// Every link fragment of every eligible message resolves to a URL.
pub open spec fn links_resolve(ms: Seq<Message>, opt_out: Seq<i64>) -> bool {
    forall|i: int|
        0 <= i < ms.len() && eligible(#[trigger] ms[i], opt_out) ==> entities_resolve(
            struct_entities(ms[i].text),
        )
}

proof fn lemma_link_bounds(ms: Seq<Message>, opt_out: Seq<i64>, k: Seq<char>, d: Seq<char>)
    ensures
        0 <= link_user_tally(ms, opt_out, k) <= link_total(ms, opt_out),
        0 <= link_domain_tally(ms, opt_out, d) <= link_total(ms, opt_out),
    decreases ms.len(),
{
    if ms.len() > 0 {
        lemma_link_bounds(ms.drop_last(), opt_out, k, d);
        lemma_domain_count_bound(struct_entities(ms.last().text), d);
    }
}

proof fn lemma_link_total_prefix(ms: Seq<Message>, opt_out: Seq<i64>, i: int)
    requires
        0 <= i <= ms.len(),
    ensures
        0 <= link_total(ms.take(i), opt_out) <= link_total(ms, opt_out),
    decreases ms.len(),
{
    if i < ms.len() {
        lemma_link_total_prefix(ms.drop_last(), opt_out, i);
        assert(ms.drop_last().take(i) =~= ms.take(i));
        lemma_domain_count_bound(struct_entities(ms.last().text), Seq::empty());
    } else {
        assert(ms.take(i) =~= ms);
        lemma_link_bounds(ms, opt_out, Seq::empty(), Seq::empty());
    }
}

proof fn lemma_sender_tally_zero(ms: Seq<Message>, opt_out: Seq<i64>, k: Seq<char>)
    requires
        forall|i: int|
            0 <= i < ms.len() && sender_name_spec(#[trigger] ms[i]) == Some(k) ==> opt_out.contains(
                sender_id_spec(ms[i])->0.num_spec(),
            ),
    ensures
        sender_tally(ms, opt_out, k) == 0,
    decreases ms.len(),
{
    if ms.len() > 0 {
        let p = ms.drop_last();
        assert forall|i: int|
            0 <= i < p.len() && sender_name_spec(#[trigger] p[i]) == Some(k) implies opt_out.contains(
                sender_id_spec(p[i])->0.num_spec(),
            ) by {
            assert(p[i] == ms[i]);
        }
        lemma_sender_tally_zero(p, opt_out, k);
        assert(ms.last() == ms[ms.len() - 1]);
    }
}

/// When the numeric id of every sender under the label `k` is excluded, the
/// sender ranking has no row for `k`; its total, all messages, stays as it is.
pub proof fn lemma_excluded_sender_has_no_row(
    ms: Seq<Message>,
    opt_out: Seq<i64>,
    k: Seq<char>,
    r: Ranking,
    take: int,
)
    requires
        forall|i: int|
            0 <= i < ms.len() && sender_name_spec(#[trigger] ms[i]) == Some(k) ==> opt_out.contains(
                sender_id_spec(ms[i])->0.num_spec(),
            ),
        ranked(r.rows@, |j: Seq<char>| sender_tally(ms, opt_out, j), take),
    ensures
        forall|i: int| 0 <= i < r.rows@.len() ==> r.rows@[i].0@ != k,
{
    lemma_sender_tally_zero(ms, opt_out, k);
}

proof fn lemma_absent_total(ms: Seq<Message>, opt_out: Seq<i64>, p: Seq<char>, k: Seq<char>)
    requires
        forall|i: int| 0 <= i < ms.len() ==> text_occurrences(#[trigger] ms[i].text, p) == 0,
    ensures
        substring_total(ms, opt_out, p) == 0,
        substring_tally(ms, opt_out, p, k) == 0,
    decreases ms.len(),
{
    if ms.len() > 0 {
        let q = ms.drop_last();
        assert forall|i: int| 0 <= i < q.len() implies text_occurrences(#[trigger] q[i].text, p) == 0 by {
            assert(q[i] == ms[i]);
        }
        lemma_absent_total(q, opt_out, p, k);
        assert(ms.last() == ms[ms.len() - 1]);
    }
}

/// A pattern that occurs in no message gives a substring report with total
/// zero and no rows.
pub proof fn lemma_absent_pattern_is_empty(
    ms: Seq<Message>,
    opt_out: Seq<i64>,
    p: Seq<char>,
    r: Ranking,
    take: int,
)
    requires
        forall|i: int| 0 <= i < ms.len() ==> text_occurrences(#[trigger] ms[i].text, p) == 0,
        ranked(r.rows@, |k: Seq<char>| substring_tally(ms, opt_out, p, k), take),
    ensures
        substring_total(ms, opt_out, p) == 0,
        r.rows@.len() == 0,
{
    lemma_absent_total(ms, opt_out, p, Seq::empty());
    if r.rows@.len() > 0 {
        lemma_absent_total(ms, opt_out, p, r.rows@[0].0@);
    }
}

proof fn lemma_sender_tally_bound(ms: Seq<Message>, opt_out: Seq<i64>, k: Seq<char>)
    ensures
        0 <= sender_tally(ms, opt_out, k) <= ms.len(),
    decreases ms.len(),
{
    if ms.len() > 0 {
        lemma_sender_tally_bound(ms.drop_last(), opt_out, k);
    }
}

proof fn lemma_substring_tally_bound(ms: Seq<Message>, opt_out: Seq<i64>, p: Seq<char>, k: Seq<char>)
    ensures
        0 <= substring_tally(ms, opt_out, p, k) <= substring_total(ms, opt_out, p),
    decreases ms.len(),
{
    if ms.len() > 0 {
        lemma_substring_tally_bound(ms.drop_last(), opt_out, p, k);
    }
}

proof fn lemma_substring_total_prefix(ms: Seq<Message>, opt_out: Seq<i64>, p: Seq<char>, i: int)
    requires
        0 <= i <= ms.len(),
    ensures
        0 <= substring_total(ms.take(i), opt_out, p) <= substring_total(ms, opt_out, p),
    decreases ms.len(),
{
    if i < ms.len() {
        lemma_substring_total_prefix(ms.drop_last(), opt_out, p, i);
        assert(ms.drop_last().take(i) =~= ms.take(i));
    } else {
        assert(ms.take(i) =~= ms);
        lemma_substring_tally_bound(ms, opt_out, p, Seq::empty());
    }
}

impl<'a> Analyzer<'a> {
    /// An analyzer over `data`: no wrapper, no row limit, nobody excluded.
    pub fn new(data: &'a ChatData) -> (r: Self)
        ensures
            r.data == data,
            r.wrap_with is None,
            r.take_num == usize::MAX,
            r.opt_out@.len() == 0,
    {
        Analyzer { data, wrap_with: None, take_num: usize::MAX, opt_out: &[] }
    }

    /// Sets the text written before and after each report block.
    pub fn wrap_with(self, wrap_with: &'a str) -> (r: Self)
        ensures
            r.data == self.data,
            r.wrap_with == Some(wrap_with),
            r.take_num == self.take_num,
            r.opt_out == self.opt_out,
    {
        Analyzer { wrap_with: Some(wrap_with), ..self }
    }

    /// Sets the most rows a ranking keeps.
    pub fn take(self, take_num: usize) -> (r: Self)
        ensures
            r.data == self.data,
            r.wrap_with == self.wrap_with,
            r.take_num == take_num,
            r.opt_out == self.opt_out,
    {
        Analyzer { take_num, ..self }
    }

    /// Sets the numeric ids whose messages every report leaves out.
    pub fn opt_out(self, opt_out: &'a [i64]) -> (r: Self)
        ensures
            r.data == self.data,
            r.wrap_with == self.wrap_with,
            r.take_num == self.take_num,
            r.opt_out == opt_out,
    {
        Analyzer { opt_out, ..self }
    }

    /// Whether a message counts in the reports: ordinary, and its sender not excluded.
    pub fn is_eligible(&self, m: &Message) -> (r: bool)
        ensures
            r == eligible(*m, self.opt_out@),
    {
        match &m.msg_type {
            MessageType::Message { from_id, .. } => {
                let n = from_id.as_num();
                let mut i: usize = 0;
                while i < self.opt_out.len()
                    invariant
                        i <= self.opt_out@.len(),
                        n == from_id.num_spec(),
                        sender_id_spec(*m) == Some(*from_id),
                        forall|j: int| 0 <= j < i ==> self.opt_out@[j] != n,
                    decreases self.opt_out@.len() - i,
                {
                    if self.opt_out[i] == n {
                        assert(self.opt_out@[i as int] == n);
                        assert(self.opt_out@.contains(n));
                        return false;
                    }
                    i = i + 1;
                }
                true
            },
            MessageType::Service => false,
        }
    }

    /// Messages per sender label among the eligible messages, ranked; the
    /// total is the number of all messages of the export.
    pub fn sender_rank(&self) -> (r: Ranking)
        ensures
            r.total == self.data.messages@.len(),
            ranked(
                r.rows@,
                |k: Seq<char>| sender_tally(self.data.messages@, self.opt_out@, k),
                self.take_num as int,
            ),
    {
        let ms = &self.data.messages;
        let ghost opt = self.opt_out@;
        let mut es: Vec<(String, usize)> = Vec::new();
        let mut i: usize = 0;
        while i < ms.len()
            invariant
                i <= ms@.len(),
                opt == self.opt_out@,
                represents(es@, |k: Seq<char>| sender_tally(ms@.take(i as int), opt, k)),
            decreases ms@.len() - i,
        {
            let ghost f = |k: Seq<char>| sender_tally(ms@.take(i as int), opt, k);
            let ghost g = |k: Seq<char>| sender_tally(ms@.take(i + 1), opt, k);
            let m = &ms[i];
            proof {
                assert(ms@.take(i + 1).drop_last() =~= ms@.take(i as int));
            }
            if self.is_eligible(m) {
                let name = m.sender_name().unwrap();
                proof {
                    lemma_sender_tally_bound(ms@.take(i as int), opt, name@);
                }
                add_to_tally(&mut es, name, 1, Ghost(f));
                proof {
                    lemma_represents_ext(
                        es@,
                        |k: Seq<char>| f(k) + if k == name@ { 1int } else { 0int },
                        g,
                    );
                }
            } else {
                proof {
                    lemma_represents_ext(es@, f, g);
                }
            }
            i = i + 1;
        }
        proof {
            assert(ms@.take(i as int) =~= ms@);
        }
        let rows = rank(es, self.take_num, Ghost(|k: Seq<char>| sender_tally(ms@, opt, k)));
        Ranking { total: ms.len(), rows }
    }

    /// Occurrences of `pattern` per sender label among the eligible messages,
    /// ranked; the total is their sum. Messages without an occurrence add nothing.
    pub fn count_substring(&self, pattern: &str) -> (r: Ranking)
        requires
            substring_total(self.data.messages@, self.opt_out@, pattern@) <= usize::MAX,
        ensures
            r.total == substring_total(self.data.messages@, self.opt_out@, pattern@),
            ranked(
                r.rows@,
                |k: Seq<char>| substring_tally(self.data.messages@, self.opt_out@, pattern@, k),
                self.take_num as int,
            ),
    {
        let ms = &self.data.messages;
        let ghost opt = self.opt_out@;
        let mut es: Vec<(String, usize)> = Vec::new();
        let mut total: usize = 0;
        let mut i: usize = 0;
        while i < ms.len()
            invariant
                i <= ms@.len(),
                opt == self.opt_out@,
                substring_total(ms@, opt, pattern@) <= usize::MAX,
                total == substring_total(ms@.take(i as int), opt, pattern@),
                represents(es@, |k: Seq<char>| substring_tally(ms@.take(i as int), opt, pattern@, k)),
            decreases ms@.len() - i,
        {
            let ghost f = |k: Seq<char>| substring_tally(ms@.take(i as int), opt, pattern@, k);
            let ghost g = |k: Seq<char>| substring_tally(ms@.take(i + 1), opt, pattern@, k);
            let m = &ms[i];
            proof {
                assert(ms@.take(i + 1).drop_last() =~= ms@.take(i as int));
                lemma_substring_total_prefix(ms@, opt, pattern@, i + 1);
            }
            if self.is_eligible(m) {
                let count = m.count(pattern);
                if count == 0 {
                    proof {
                        lemma_represents_ext(es@, f, g);
                    }
                } else {
                    let name = m.sender_name().unwrap();
                    proof {
                        lemma_substring_tally_bound(ms@.take(i + 1), opt, pattern@, name@);
                        lemma_substring_tally_bound(ms@.take(i as int), opt, pattern@, name@);
                    }
                    add_to_tally(&mut es, name, count, Ghost(f));
                    proof {
                        lemma_represents_ext(
                            es@,
                            |k: Seq<char>| f(k) + if k == name@ { count as int } else { 0int },
                            g,
                        );
                    }
                    total = total + count;
                }
            } else {
                proof {
                    lemma_represents_ext(es@, f, g);
                }
            }
            i = i + 1;
        }
        proof {
            assert(ms@.take(i as int) =~= ms@);
        }
        let rows = rank(
            es,
            self.take_num,
            Ghost(|k: Seq<char>| substring_tally(ms@, opt, pattern@, k)),
        );
        Ranking { total, rows }
    }

    /// Link fragments per sender label and per URL domain among the eligible
    /// messages, ranked, over the shared total of link fragments. A bare link
    /// without a scheme is read as `http://`; a text link points to its target.
    /// Fails when a link does not resolve to a URL.
    pub fn count_link(&self) -> (r: Result<LinkRanking, LinkError>)
        requires
            link_total(self.data.messages@, self.opt_out@) <= usize::MAX,
        ensures
            r is Ok <==> links_resolve(self.data.messages@, self.opt_out@),
            r matches Ok(x) ==> {
                &&& x.total == link_total(self.data.messages@, self.opt_out@)
                &&& ranked(
                    x.users@,
                    |k: Seq<char>| link_user_tally(self.data.messages@, self.opt_out@, k),
                    self.take_num as int,
                )
                &&& ranked(
                    x.domains@,
                    |d: Seq<char>| link_domain_tally(self.data.messages@, self.opt_out@, d),
                    self.take_num as int,
                )
            },
    {
        let ms = &self.data.messages;
        let ghost opt = self.opt_out@;
        let mut users: Vec<(String, usize)> = Vec::new();
        let mut domains: Vec<(String, usize)> = Vec::new();
        let mut total: usize = 0;
        let mut i: usize = 0;
        while i < ms.len()
            invariant
                i <= ms@.len(),
                opt == self.opt_out@,
                link_total(ms@, opt) <= usize::MAX,
                ms@ == self.data.messages@,
                links_resolve(ms@.take(i as int), opt),
                total == link_total(ms@.take(i as int), opt),
                represents(users@, |k: Seq<char>| link_user_tally(ms@.take(i as int), opt, k)),
                represents(domains@, |d: Seq<char>| link_domain_tally(ms@.take(i as int), opt, d)),
            decreases ms@.len() - i,
        {
            let ghost fu = |k: Seq<char>| link_user_tally(ms@.take(i as int), opt, k);
            let ghost gu = |k: Seq<char>| link_user_tally(ms@.take(i + 1), opt, k);
            let ghost fd = |d: Seq<char>| link_domain_tally(ms@.take(i as int), opt, d);
            let ghost gd = |d: Seq<char>| link_domain_tally(ms@.take(i + 1), opt, d);
            let m = &ms[i];
            let ghost ents = struct_entities(m.text);
            proof {
                assert(ms@.take(i + 1).drop_last() =~= ms@.take(i as int));
                assert(ms@.take(i + 1).last() == *m);
                lemma_link_total_prefix(ms@, opt, i + 1);
                lemma_link_total_prefix(ms@, opt, i as int);
            }
            if self.is_eligible(m) {
                let es = m.text.as_entities();
                proof {
                    assert forall|d: Seq<char>|
                        0 <= #[trigger] fd(d) && fd(d) + domain_count(ents, d) <= usize::MAX by {
                        lemma_link_bounds(ms@.take(i as int), opt, Seq::empty(), d);
                        lemma_link_bounds(ms@.take(i + 1), opt, Seq::empty(), d);
                    }
                    lemma_domain_count_bound(ents, Seq::empty());
                }
                let n = match tally_links(&es, &mut domains, Ghost(ents), Ghost(fd)) {
                    Ok(n) => n,
                    Err(e) => {
                        assert(!links_resolve(ms@, opt)) by {
                            assert(eligible(ms@[i as int], opt));
                        }
                        return Err(e);
                    },
                };
                proof {
                    lemma_represents_ext(
                        domains@,
                        |d: Seq<char>| fd(d) + domain_count(ents, d),
                        gd,
                    );
                }
                if n > 0 {
                    let name = m.sender_name().unwrap();
                    proof {
                        lemma_link_bounds(ms@.take(i as int), opt, name@, Seq::empty());
                        lemma_link_bounds(ms@.take(i + 1), opt, name@, Seq::empty());
                    }
                    add_to_tally(&mut users, name, n, Ghost(fu));
                    proof {
                        lemma_represents_ext(
                            users@,
                            |k: Seq<char>| fu(k) + if k == name@ { n as int } else { 0int },
                            gu,
                        );
                    }
                    total = total + n;
                } else {
                    proof {
                        lemma_represents_ext(users@, fu, gu);
                    }
                }
            } else {
                proof {
                    lemma_represents_ext(users@, fu, gu);
                    lemma_represents_ext(domains@, fd, gd);
                }
            }
            proof {
                assert forall|j: int|
                    0 <= j < i + 1 && eligible(#[trigger] ms@.take(i + 1)[j], opt) implies entities_resolve(
                    struct_entities(ms@.take(i + 1)[j].text),
                ) by {
                    if j < i {
                        assert(ms@.take(i + 1)[j] == ms@.take(i as int)[j]);
                    }
                }
            }
            i = i + 1;
        }
        proof {
            assert(ms@.take(i as int) =~= ms@);
        }
        let users = rank(users, self.take_num, Ghost(|k: Seq<char>| link_user_tally(ms@, opt, k)));
        let domains = rank(
            domains,
            self.take_num,
            Ghost(|d: Seq<char>| link_domain_tally(ms@, opt, d)),
        );
        Ok(LinkRanking { total, users, domains })
    }
}

} // verus!
