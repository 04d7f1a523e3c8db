//! Token counting and the incremental token-count cache.
//!
//! A [`CountToken`] counter assigns an integer cost to a text. A
//! [`PromptTokenCountCache`] is built once from a partial prompt and a
//! counter; it precomputes the cost of the template text, each
//! placeholder's occurrence count, and the cost of each placeholder's
//! literal `{[name]}` text. A speculative fill can then be priced by
//! adjusting per placeholder instead of re-counting the whole text.
//!
//! The cache's additive model is exact for counters that are additive
//! over concatenation (such as the length counter) and an approximation
//! for counters that are not; see [`lemma_cache_agreement`].

use vstd::prelude::*;

use crate::errors::PlaceholderNotExist;
use crate::prompt::PartialPrompt;
use crate::scan;
use crate::scan::string_views;

verus! {

/// A token counter capability: any component that assigns an integer cost
/// to a piece of text.
pub trait CountToken {
    /// The cost this counter assigns to a text.
    spec fn spec_count(&self, s: Seq<char>) -> nat;

    /// Counts the tokens of `string`.
    fn count_token(&self, string: &str) -> (r: usize)
        ensures
            r as nat == self.spec_count(string@),
    ;
}

/// A counter is additive when the cost of a concatenation is the sum of
/// the costs of the parts. The length counter is additive; a byte-pair
/// tokenizer need not be.
pub open spec fn additive<C: CountToken>(c: C) -> bool {
    forall|a: Seq<char>, b: Seq<char>| #[trigger] c.spec_count(a + b) == c.spec_count(a)
        + c.spec_count(b)
}

/// Counts tokens as the number of characters of the string.
pub fn count_tokens_by_len(string: &str) -> (r: usize)
    ensures
        r as nat == string@.len(),
{
    string.unicode_len()
}

/// The length-based counter: one token per character. Useful for tests
/// and for budgeting by text length.
pub struct LenCounter;

impl CountToken for LenCounter {
    open spec fn spec_count(&self, s: Seq<char>) -> nat {
        s.len()
    }

    fn count_token(&self, string: &str) -> usize {
        count_tokens_by_len(string)
    }
}

/// The length counter is additive over concatenation.
pub proof fn lemma_len_counter_additive(c: LenCounter)
    ensures
        additive(c),
{
}

/// The sum of a sequence of machine integers.
pub open spec fn sum_usizes(s: Seq<usize>) -> int
    decreases s.len(),
{
    if s.len() == 0 {
        0
    } else {
        sum_usizes(s.drop_last()) + s.last()
    }
}

/// A sum of machine integers is non-negative.
pub proof fn lemma_sum_nonneg(s: Seq<usize>)
    ensures
        sum_usizes(s) >= 0,
    decreases s.len(),
{
    if s.len() > 0 {
        lemma_sum_nonneg(s.drop_last());
    }
}

/// Extending a prefix sum by one element.
pub proof fn lemma_sum_take_step(s: Seq<usize>, j: int)
    requires
        0 <= j < s.len(),
    ensures
        sum_usizes(s.take(j + 1)) == sum_usizes(s.take(j)) + s[j],
{
    assert(s.take(j + 1).drop_last() =~= s.take(j));
    assert(s.take(j + 1).last() == s[j]);
}

/// A prefix sum is bounded by the whole sum.
pub proof fn lemma_sum_take_le(s: Seq<usize>, j: int)
    requires
        0 <= j <= s.len(),
    ensures
        sum_usizes(s.take(j)) <= sum_usizes(s),
    decreases s.len() - j,
{
    if j == s.len() {
        assert(s.take(j) =~= s);
    } else {
        lemma_sum_take_step(s, j);
        lemma_sum_take_le(s, j + 1);
    }
}

/// Updating one element moves the sum by the difference.
pub proof fn lemma_sum_update(s: Seq<usize>, j: int, v: usize)
    requires
        0 <= j < s.len(),
    ensures
        sum_usizes(s.update(j, v)) == sum_usizes(s) - s[j] + v,
    decreases s.len(),
{
    if j == s.len() - 1 {
        assert(s.update(j, v).drop_last() =~= s.drop_last());
        assert(s.update(j, v).last() == v);
    } else {
        assert(s.update(j, v).drop_last() =~= s.drop_last().update(j, v));
        assert(s.update(j, v).last() == s.last());
        lemma_sum_update(s.drop_last(), j, v);
    }
}

/// Extending a prefix count of one name by one element.
pub proof fn lemma_count_of_take_step(names: Seq<Seq<char>>, t: int, x: Seq<char>)
    requires
        0 <= t < names.len(),
    ensures
        scan::count_of(names.take(t + 1), x) == scan::count_of(names.take(t), x) + if names[t]
            == x {
            1int
        } else {
            0int
        },
{
    assert(names.take(t + 1).drop_last() =~= names.take(t));
    assert(names.take(t + 1).last() == names[t]);
}

/// The cost that one placeholder contributes under the hypothetical
/// overrides `m`: the cost of its override if `m` binds it, else of its
/// recorded fill value, else of its literal `{[name]}` occurrence text.
pub open spec fn effective_cost<C: CountToken>(
    c: C,
    pp: PartialPrompt,
    m: Map<Seq<char>, Seq<char>>,
    j: int,
) -> int {
    let n = pp.placeholder_names()[j];
    if m.dom().contains(n) {
        c.spec_count(m[n]) as int
    } else {
        match pp.value_of(n) {
            Some(v) => c.spec_count(v) as int,
            None => c.spec_count(scan::delimited(n)) as int,
        }
    }
}

/// The summed effective cost of the first `j` placeholders, each weighted
/// by how often it occurs in the template text.
pub open spec fn value_cost_prefix<C: CountToken>(
    c: C,
    pp: PartialPrompt,
    m: Map<Seq<char>, Seq<char>>,
    j: int,
) -> int
    decreases j,
{
    if j <= 0 {
        0
    } else {
        value_cost_prefix(c, pp, m, j - 1) + effective_cost(c, pp, m, j - 1)
            * scan::occurrences(pp.template_model().text, pp.placeholder_names()[j - 1])
    }
}

/// The summed cost of the first `j` placeholders' literal `{[name]}`
/// texts, each weighted by how often it occurs in the template text.
pub open spec fn name_cost_prefix<C: CountToken>(c: C, pp: PartialPrompt, j: int) -> int
    decreases j,
{
    if j <= 0 {
        0
    } else {
        name_cost_prefix(c, pp, j - 1) + c.spec_count(
            scan::delimited(pp.placeholder_names()[j - 1]),
        ) * scan::occurrences(pp.template_model().text, pp.placeholder_names()[j - 1])
    }
}

/// The hypothetical token total of a partial prompt under overrides `m`:
/// the cost of the raw template text, minus each placeholder's literal
/// cost weighted by its occurrences, plus each placeholder's effective
/// cost weighted the same way.
pub open spec fn prompt_token_total<C: CountToken>(
    c: C,
    pp: PartialPrompt,
    m: Map<Seq<char>, Seq<char>>,
) -> int {
    c.spec_count(pp.template_model().text) + value_cost_prefix(
        c,
        pp,
        m,
        pp.placeholder_names().len() as int,
    ) - name_cost_prefix(c, pp, pp.placeholder_names().len() as int)
}

/// A cache for pricing speculative fills of one partial prompt: the cost
/// of the raw template text, each placeholder's occurrence count, and the
/// cost of each placeholder's literal `{[name]}` text, all computed once
/// at construction.
pub struct PromptTokenCountCache<'a, C: CountToken> {
    /// The token cost of the raw template text, placeholders counted as
    /// their literal text.
    pub template_token_count: usize,
    prompt: &'a PartialPrompt,
    placeholder_occurrence: Vec<usize>,
    placeholder_token_count: Vec<usize>,
    counter: &'a C,
}

impl<'a, C: CountToken> PromptTokenCountCache<'a, C> {
    /// The partial prompt the cache was built from.
    pub closed spec fn prompt_spec(self) -> PartialPrompt {
        *self.prompt
    }

    /// The counter the cache was built with.
    pub closed spec fn counter_spec(self) -> C {
        *self.counter
    }

    /// The recorded cost of the raw template text.
    pub closed spec fn count_view(self) -> nat {
        self.template_token_count as nat
    }

    /// The recorded occurrence counts, in placeholder order.
    pub closed spec fn occ_view(self) -> Seq<usize> {
        self.placeholder_occurrence@
    }

    /// The recorded literal-text costs, in placeholder order.
    pub closed spec fn cost_view(self) -> Seq<usize> {
        self.placeholder_token_count@
    }

    /// The template text the cache is about.
    pub open spec fn text(self) -> Seq<char> {
        self.prompt_spec().template_model().text
    }

    /// The placeholder names the cache is about, in order.
    pub open spec fn names(self) -> Seq<Seq<char>> {
        self.prompt_spec().placeholder_names()
    }

    /// A well-formed cache: each recorded number is what its definition
    /// says, and the occurrence counts leave room for exact arithmetic.
    pub open spec fn wf(self) -> bool {
        &&& self.prompt_spec().wf()
        &&& self.occ_view().len() == self.names().len()
        &&& self.cost_view().len() == self.names().len()
        &&& self.count_view() == self.counter_spec().spec_count(self.text())
        &&& forall|j: int|
            0 <= j < self.names().len() ==> (#[trigger] self.occ_view()[j]) as nat
                == scan::occurrences(self.text(), self.names()[j])
        &&& forall|j: int|
            0 <= j < self.names().len() ==> (#[trigger] self.cost_view()[j]) as nat
                == self.counter_spec().spec_count(scan::delimited(self.names()[j]))
        &&& sum_usizes(self.occ_view()) * 4 <= self.text().len()
        &&& self.text().len() <= usize::MAX
    }

    /// The hypothetical token total under overrides `m`.
    pub open spec fn spec_total(self, m: Map<Seq<char>, Seq<char>>) -> int {
        prompt_token_total(self.counter_spec(), self.prompt_spec(), m)
    }

    /// Counts how often each placeholder occurs in the text.
    fn get_placeholder_occurrence(string: &str, placeholders: &Vec<String>) -> (r: Vec<usize>)
        requires
            string_views(placeholders@).no_duplicates(),
        ensures
            r@.len() == placeholders@.len(),
            forall|j: int|
                0 <= j < r@.len() ==> (#[trigger] r@[j]) as nat == scan::occurrences(
                    string@,
                    string_views(placeholders@)[j],
                ),
            sum_usizes(r@) * 4 <= string@.len(),
            string@.len() <= usize::MAX,
    {
        let ghost names = string_views(placeholders@);
        let ghost occ_names = scan::match_names(string@);
        let ms = scan::scan_matches(string);
        let mut r: Vec<usize> = Vec::new();
        let mut j: usize = 0;
        while j < placeholders.len()
            invariant
                j <= placeholders@.len(),
                r@.len() == j,
                forall|i: int| 0 <= i < j ==> (#[trigger] r@[i]) == 0,
            decreases placeholders@.len() - j,
        {
            r.push(0);
            j = j + 1;
        }
        proof {
            lemma_sum_zeros(r@);
            assert(occ_names.take(0) =~= Seq::<Seq<char>>::empty());
        }
        let mut t: usize = 0;
        while t < ms.len()
            invariant
                names == string_views(placeholders@),
                names.no_duplicates(),
                occ_names == scan::match_names(string@),
                scan::pair_views(ms@) == scan::matches_from(string@, 0),
                forall|i: int|
                    0 <= i < ms@.len() ==> scan::match_at(
                        string@,
                        #[trigger] ms@[i].0 as int,
                        ms@[i].1 as int,
                    ),
                ms@.len() * 4 <= string@.len(),
                occ_names.len() == ms@.len(),
                t <= ms@.len(),
                r@.len() == placeholders@.len(),
                forall|i: int|
                    0 <= i < r@.len() ==> (#[trigger] r@[i]) as nat == scan::count_of(
                        occ_names.take(t as int),
                        names[i],
                    ),
                sum_usizes(r@) <= t,
                forall|i: int| 0 <= i < r@.len() ==> (#[trigger] r@[i]) <= t,
            decreases ms@.len() - t,
        {
            let (i, k) = ms[t];
            assert(scan::match_at(string@, i as int, k as int));
            let name = string.substring_char(i + 2, k).to_owned();
            proof {
                assert(occ_names[t as int] == scan::name_of(
                    string@,
                    scan::pair_views(ms@)[t as int],
                ));
                assert(name@ == occ_names[t as int]);
            }
            let ghost old_r = r@;
            match scan::find_name_index(placeholders, &name) {
                Some(jj) => {
                    let c = r[jj];
                    r.set(jj, c + 1);
                    proof {
                        lemma_sum_update(old_r, jj as int, (c + 1) as usize);
                        assert forall|i2: int| 0 <= i2 < r@.len() implies (#[trigger] r@[i2])
                            as nat == scan::count_of(
                            occ_names.take(t as int + 1),
                            names[i2],
                        ) by {
                            lemma_count_of_take_step(occ_names, t as int, names[i2]);
                            if i2 != jj {
                                assert(names[i2] != names[jj as int]);
                            }
                        }
                    }
                },
                None => {
                    proof {
                        assert forall|i2: int| 0 <= i2 < r@.len() implies (#[trigger] r@[i2])
                            as nat == scan::count_of(
                            occ_names.take(t as int + 1),
                            names[i2],
                        ) by {
                            lemma_count_of_take_step(occ_names, t as int, names[i2]);
                            assert(names[i2] != name@);
                        }
                    }
                },
            }
            t = t + 1;
        }
        proof {
            assert(occ_names.take(ms@.len() as int) =~= occ_names);
        }
        r
    }

    /// Builds the cache: counts the template text once, then each
    /// placeholder's occurrences and literal `{[name]}` cost.
    pub fn new(partial_prompt: &'a PartialPrompt, counter: &'a C) -> (r: Self)
        requires
            partial_prompt.wf(),
        ensures
            r.wf(),
            r.prompt_spec() == *partial_prompt,
            r.counter_spec() == *counter,
            r.count_view() == counter.spec_count(partial_prompt.template_model().text),
    {
        let template_str = partial_prompt.template().str();
        let template_token_count = counter.count_token(template_str);
        let placeholders = partial_prompt.template().placeholders();
        let placeholder_occurrence = Self::get_placeholder_occurrence(
            template_str,
            placeholders,
        );
        let n = placeholders.len();
        let mut placeholder_token_count: Vec<usize> = Vec::new();
        let mut j: usize = 0;
        while j < n
            invariant
                n == placeholders@.len(),
                string_views(placeholders@) == partial_prompt.placeholder_names(),
                j <= n,
                placeholder_token_count@.len() == j,
                forall|i: int|
                    0 <= i < j ==> (#[trigger] placeholder_token_count@[i]) as nat
                        == counter.spec_count(
                        scan::delimited(partial_prompt.placeholder_names()[i]),
                    ),
            decreases n - j,
        {
            let mut d = String::new();
            d.append("{[");
            d.append(placeholders[j].as_str());
            d.append("]}");
            proof {
                reveal_strlit("{[");
                reveal_strlit("]}");
                assert(d@ =~= scan::delimited(partial_prompt.placeholder_names()[j as int]));
            }
            placeholder_token_count.push(counter.count_token(d.as_str()));
            j = j + 1;
        }
        PromptTokenCountCache {
            template_token_count,
            prompt: partial_prompt,
            placeholder_occurrence,
            placeholder_token_count,
            counter,
        }
    }
}

impl<'a, C: CountToken> PromptTokenCountCache<'a, C> {
    /// Computes the hypothetical total under the overrides, exactly.
    fn total_with(&self, overrides: &Vec<(String, String)>) -> (r: usize)
        requires
            self.wf(),
            0 <= self.spec_total(scan::pairs_to_map(overrides@)) <= usize::MAX,
        ensures
            r == self.spec_total(scan::pairs_to_map(overrides@)),
    {
        let ghost m = scan::pairs_to_map(overrides@);
        let ghost c = self.counter_spec();
        let ghost pp = self.prompt_spec();
        let ghost umax: int = usize::MAX as int;
        let pvec = self.prompt.template().placeholders();
        let n = pvec.len();
        let mut pos: u128 = self.template_token_count as u128;
        let mut neg: u128 = 0;
        let mut j: usize = 0;
        proof {
            assert(self.occ_view().take(0) =~= Seq::<usize>::empty());
            assert(usize::MAX as int <= u64::MAX as int);
        }
        while j < n
            invariant
                self.wf(),
                m == scan::pairs_to_map(overrides@),
                c == self.counter_spec(),
                pp == self.prompt_spec(),
                umax == usize::MAX as int,
                umax <= u64::MAX as int,
                string_views(pvec@) == self.names(),
                n == self.names().len(),
                j <= n,
                pos as int == self.count_view() + value_cost_prefix(c, pp, m, j as int),
                neg as int == name_cost_prefix(c, pp, j as int),
                pos as int <= umax + umax * sum_usizes(self.occ_view().take(j as int)),
                neg as int <= umax * sum_usizes(self.occ_view().take(j as int)),
            decreases n - j,
        {
            let ghost nm = self.names()[j as int];
            let ghost occ_spec = scan::occurrences(self.text(), nm) as int;
            let eff: usize = match scan::lookup_first(overrides, &pvec[j]) {
                Some(v) => self.counter.count_token(v.as_str()),
                None => {
                    proof {
                        pp.lemma_value_at(j as int);
                    }
                    match self.prompt.value_at(j) {
                        Some(v) => self.counter.count_token(v.as_str()),
                        None => self.placeholder_token_count[j],
                    }
                },
            };
            assert(eff as int == effective_cost(c, pp, m, j as int));
            let occ = self.placeholder_occurrence[j];
            let cost = self.placeholder_token_count[j];
            assert(occ as int == occ_spec);
            proof {
                let so = self.occ_view();
                lemma_sum_take_step(so, j as int);
                lemma_sum_take_le(so, j as int + 1);
                lemma_sum_nonneg(so.take(j as int));
                assert(sum_usizes(so) * 4 <= self.text().len());
                assert(self.text().len() <= umax);
                let sj = sum_usizes(so.take(j as int));
                let sj1 = sum_usizes(so.take(j as int + 1));
                assert(sj1 == sj + occ);
                assert(eff as int <= umax && cost as int <= umax);
                assert((eff as int) * (occ as int) <= umax * (occ as int)) by (nonlinear_arith)
                    requires
                        0 <= eff as int <= umax,
                        0 <= occ as int,
                ;
                assert((cost as int) * (occ as int) <= umax * (occ as int)) by (nonlinear_arith)
                    requires
                        0 <= cost as int <= umax,
                        0 <= occ as int,
                ;
                assert(umax * sj + umax * (occ as int) == umax * sj1) by (nonlinear_arith)
                    requires
                        sj1 == sj + occ as int,
                ;
                assert(umax * sj1 <= umax * sum_usizes(so)) by (nonlinear_arith)
                    requires
                        sj1 <= sum_usizes(so),
                        0 <= umax,
                ;
                assert(4 * (umax * sum_usizes(so)) <= umax * self.text().len()) by (
                nonlinear_arith)
                    requires
                        sum_usizes(so) * 4 <= self.text().len(),
                        0 <= umax,
                ;
                assert(umax * self.text().len() <= umax * umax) by (nonlinear_arith)
                    requires
                        0 <= umax,
                        self.text().len() <= umax,
                ;
                assert(umax + umax * umax <= u128::MAX as int) by (nonlinear_arith)
                    requires
                        0 <= umax <= u64::MAX as int,
                ;
                assert(pos as int + (eff as int) * (occ as int) <= u128::MAX as int);
                assert(neg as int + (cost as int) * (occ as int) <= u128::MAX as int);
            }
            pos = pos + (eff as u128) * (occ as u128);
            neg = neg + (cost as u128) * (occ as u128);
            j = j + 1;
        }
        proof {
            assert(self.occ_view().take(n as int) =~= self.occ_view());
        }
        assert(pos as int - neg as int == self.spec_total(m));
        let total = pos - neg;
        assert(total as int <= usize::MAX as int);
        let r = total as usize;
        assert(r as int == self.spec_total(m));
        r
    }

    /// The hypothetical token total if `placeholder_name` were set to
    /// `fill_value`, every other placeholder held at its current state.
    /// Does not change the partial prompt. Fails exactly when the
    /// template has no such placeholder.
    pub fn attempt_fill_and_count(&self, placeholder_name: &str, fill_value: &str) -> (r:
        Result<usize, PlaceholderNotExist>)
        requires
            self.wf(),
            self.prompt_spec().placeholders_set().contains(placeholder_name@) ==> 0
                <= self.spec_total(
                Map::<Seq<char>, Seq<char>>::empty().insert(placeholder_name@, fill_value@),
            ) <= usize::MAX,
        ensures
            r is Ok <==> self.prompt_spec().placeholders_set().contains(placeholder_name@),
            match r {
                Ok(total) => total == self.spec_total(
                    Map::<Seq<char>, Seq<char>>::empty().insert(placeholder_name@, fill_value@),
                ),
                Err(e) => {
                    &&& e.try_fill_placeholder@ == placeholder_name@
                    &&& e.value@ == fill_value@
                    &&& string_views(e.available_placeholders@) == self.names()
                },
            },
    {
        let p = placeholder_name.to_owned();
        let pvec = self.prompt.template().placeholders();
        if scan::vec_contains_str(pvec, &p) {
            let mut ov: Vec<(String, String)> = Vec::new();
            ov.push((p, fill_value.to_owned()));
            proof {
                assert(ov@.len() == 1);
                assert(ov@.drop_first() =~= Seq::<(String, String)>::empty());
                assert(scan::pairs_to_map(ov@.drop_first()) =~= Map::<Seq<char>, Seq<char>>::empty());
                assert(ov@.first().0@ == placeholder_name@);
                assert(ov@.first().1@ == fill_value@);
                assert(scan::pairs_to_map(ov@) =~= Map::<Seq<char>, Seq<char>>::empty().insert(
                    placeholder_name@,
                    fill_value@,
                ));
            }
            Ok(self.total_with(&ov))
        } else {
            Err(PlaceholderNotExist::new(p, fill_value.to_owned(), pvec))
        }
    }

    /// The hypothetical token total if every placeholder named in
    /// `mappings` were set to its value there, the rest held at their
    /// current state. Does not change the partial prompt. Fails on the
    /// first name the template does not have, without counting anything.
    pub fn attempt_fill_multiple_and_count(&self, mappings: &Vec<(String, String)>) -> (r:
        Result<usize, PlaceholderNotExist>)
        requires
            self.wf(),
            (forall|i: int|
                0 <= i < mappings@.len() ==> self.prompt_spec().placeholders_set().contains(
                    (#[trigger] mappings@[i]).0@,
                )) ==> 0 <= self.spec_total(scan::pairs_to_map(mappings@)) <= usize::MAX,
        ensures
            r is Ok <==> (forall|i: int|
                0 <= i < mappings@.len() ==> self.prompt_spec().placeholders_set().contains(
                    (#[trigger] mappings@[i]).0@,
                )),
            match r {
                Ok(total) => total == self.spec_total(scan::pairs_to_map(mappings@)),
                Err(e) => {
                    &&& string_views(e.available_placeholders@) == self.names()
                    &&& exists|i: int|
                        {
                            &&& 0 <= i < mappings@.len()
                            &&& !self.prompt_spec().placeholders_set().contains(
                                (#[trigger] mappings@[i]).0@,
                            )
                            &&& forall|i2: int|
                                0 <= i2 < i
                                    ==> self.prompt_spec().placeholders_set().contains(
                                    (#[trigger] mappings@[i2]).0@,
                                )
                            &&& e.try_fill_placeholder@ == mappings@[i].0@
                            &&& e.value@ == mappings@[i].1@
                        }
                },
            },
    {
        let pvec = self.prompt.template().placeholders();
        let mut i: usize = 0;
        while i < mappings.len()
            invariant
                self.wf(),
                string_views(pvec@) == self.names(),
                i <= mappings@.len(),
                forall|i2: int|
                    0 <= i2 < i ==> self.prompt_spec().placeholders_set().contains(
                        (#[trigger] mappings@[i2]).0@,
                    ),
            decreases mappings@.len() - i,
        {
            let pair = &mappings[i];
            if !scan::vec_contains_str(pvec, &pair.0) {
                return Err(PlaceholderNotExist::new(pair.0.clone(), pair.1.clone(), pvec));
            }
            i = i + 1;
        }
        Ok(self.total_with(mappings))
    }
}

impl PartialPrompt {
    /// Builds a reusable token-count cache over this partial prompt's
    /// current fill state.
    pub fn with_counter_cache<'a, C: CountToken>(&'a self, counter: &'a C) -> (r:
        PromptTokenCountCache<'a, C>)
        requires
            self.wf(),
        ensures
            r.wf(),
            r.prompt_spec() == *self,
            r.counter_spec() == *counter,
    {
        PromptTokenCountCache::new(self, counter)
    }

    /// The token total of the prompt as it stands: filled placeholders
    /// count as their values, unfilled ones as their literal `{[name]}`
    /// text.
    pub fn current_token_num<C: CountToken>(&self, counter: &C) -> (r: usize)
        requires
            self.wf(),
            0 <= prompt_token_total(*counter, *self, Map::<Seq<char>, Seq<char>>::empty())
                <= usize::MAX,
        ensures
            r == prompt_token_total(*counter, *self, Map::<Seq<char>, Seq<char>>::empty()),
    {
        let cache = PromptTokenCountCache::new(self, counter);
        let ov: Vec<(String, String)> = Vec::new();
        proof {
            assert(scan::pairs_to_map(ov@) =~= Map::<Seq<char>, Seq<char>>::empty());
        }
        cache.total_with(&ov)
    }
}

/// The summed cost change over all occurrences from position `p` on,
/// when each occurrence of a name is replaced by its value under `m`.
pub open spec fn match_delta<C: CountToken>(
    c: C,
    s: Seq<char>,
    m: Map<Seq<char>, Seq<char>>,
    p: int,
) -> int
    decreases s.len() - p
        when 0 <= p
        via match_delta_decreases::<C>
{
    if p + 4 > s.len() {
        0
    } else if scan::match_starts_at(s, p) {
        (c.spec_count(m[scan::name_of(s, (p, scan::close_of(s, p)))]) - c.spec_count(
            scan::delimited(scan::name_of(s, (p, scan::close_of(s, p)))),
        )) + match_delta(c, s, m, scan::close_of(s, p) + 2)
    } else {
        match_delta(c, s, m, p + 1)
    }
}

#[via_fn]
proof fn match_delta_decreases<C: CountToken>(
    c: C,
    s: Seq<char>,
    m: Map<Seq<char>, Seq<char>>,
    p: int,
) {
    if 0 <= p && p + 4 <= s.len() && scan::match_starts_at(s, p) {
        let k = choose|k: int| scan::match_at(s, p, k);
        assert(scan::match_at(s, p, k));
        scan::lemma_close_unique(s, p, k, scan::close_of(s, p));
    }
}

/// The summed cost change over a list of occurrence names.
pub open spec fn names_delta<C: CountToken>(
    c: C,
    m: Map<Seq<char>, Seq<char>>,
    ns: Seq<Seq<char>>,
) -> int
    decreases ns.len(),
{
    if ns.len() == 0 {
        0
    } else {
        names_delta(c, m, ns.drop_last()) + (c.spec_count(m[ns.last()]) - c.spec_count(
            scan::delimited(ns.last()),
        ))
    }
}

/// The name-list sum can also be taken from the front.
proof fn lemma_names_delta_head<C: CountToken>(
    c: C,
    m: Map<Seq<char>, Seq<char>>,
    ns: Seq<Seq<char>>,
)
    requires
        ns.len() > 0,
    ensures
        names_delta(c, m, ns) == (c.spec_count(m[ns[0]]) - c.spec_count(
            scan::delimited(ns[0]),
        )) + names_delta(c, m, ns.drop_first()),
    decreases ns.len(),
{
    if ns.len() > 1 {
        lemma_names_delta_head(c, m, ns.drop_last());
        assert(ns.drop_last().drop_first() =~= ns.drop_first().drop_last());
        assert(ns.drop_last()[0] == ns[0]);
        assert(ns.drop_first().last() == ns.last());
    } else {
        assert(ns.drop_first() =~= Seq::<Seq<char>>::empty());
        assert(ns.drop_last() =~= Seq::<Seq<char>>::empty());
        assert(ns.last() == ns[0]);
    }
}

/// The occurrence-wise sum equals the sum over the occurrence names.
proof fn lemma_match_delta_names<C: CountToken>(
    c: C,
    s: Seq<char>,
    m: Map<Seq<char>, Seq<char>>,
    p: int,
)
    requires
        0 <= p,
    ensures
        match_delta(c, s, m, p) == names_delta(c, m, scan::names_from(s, p)),
    decreases s.len() - p,
{
    if p + 4 > s.len() {
        assert(scan::names_from(s, p) =~= Seq::<Seq<char>>::empty());
    } else if scan::match_starts_at(s, p) {
        let k = choose|k: int| scan::match_at(s, p, k);
        assert(scan::match_at(s, p, k));
        scan::lemma_close_unique(s, p, k, scan::close_of(s, p));
        let nm = scan::name_of(s, (p, k));
        lemma_match_delta_names(c, s, m, k + 2);
        assert(scan::names_from(s, p) =~= seq![nm] + scan::names_from(s, k + 2));
        lemma_names_delta_head(c, m, scan::names_from(s, p));
        assert(scan::names_from(s, p)[0] == nm);
        assert(scan::names_from(s, p).drop_first() =~= scan::names_from(s, k + 2));
    } else {
        lemma_match_delta_names(c, s, m, p + 1);
        assert(scan::names_from(s, p) =~= scan::names_from(s, p + 1));
    }
}

/// For an additive counter, the cost of the rendering from `p` on is the
/// cost of the remaining raw text plus the summed per-occurrence change.
proof fn lemma_render_cost<C: CountToken>(
    c: C,
    s: Seq<char>,
    m: Map<Seq<char>, Seq<char>>,
    p: int,
)
    requires
        additive(c),
        0 <= p <= s.len(),
    ensures
        c.spec_count(scan::render_from(s, p, m)) == c.spec_count(s.subrange(p, s.len() as int))
            + match_delta(c, s, m, p),
    decreases s.len() - p,
{
    if p + 4 > s.len() {
    } else if scan::match_starts_at(s, p) {
        let k = choose|k: int| scan::match_at(s, p, k);
        assert(scan::match_at(s, p, k));
        scan::lemma_close_unique(s, p, k, scan::close_of(s, p));
        let nm = scan::name_of(s, (p, k));
        assert(scan::render_from(s, p, m) == m[nm] + scan::render_from(s, k + 2, m));
        assert(c.spec_count(m[nm] + scan::render_from(s, k + 2, m)) == c.spec_count(m[nm])
            + c.spec_count(scan::render_from(s, k + 2, m)));
        lemma_render_cost(c, s, m, k + 2);
        assert(s.subrange(p, s.len() as int) =~= s.subrange(p, k + 2) + s.subrange(
            k + 2,
            s.len() as int,
        ));
        assert(c.spec_count(s.subrange(p, k + 2) + s.subrange(k + 2, s.len() as int))
            == c.spec_count(s.subrange(p, k + 2)) + c.spec_count(
            s.subrange(k + 2, s.len() as int),
        ));
        scan::lemma_match_text(s, p, k);
        assert(s.subrange(p, k + 2) == scan::delimited(nm));
    } else {
        assert(scan::render_from(s, p, m) == seq![s[p]] + scan::render_from(s, p + 1, m));
        assert(c.spec_count(seq![s[p]] + scan::render_from(s, p + 1, m)) == c.spec_count(
            seq![s[p]],
        ) + c.spec_count(scan::render_from(s, p + 1, m)));
        lemma_render_cost(c, s, m, p + 1);
        assert(s.subrange(p, s.len() as int) =~= seq![s[p]] + s.subrange(p + 1, s.len() as int));
        assert(c.spec_count(seq![s[p]] + s.subrange(p + 1, s.len() as int)) == c.spec_count(
            seq![s[p]],
        ) + c.spec_count(s.subrange(p + 1, s.len() as int)));
    }
}

/// The name-list sum grouped by distinct names: each name of the prefix
/// `D.take(j)` contributes its change weighted by its occurrence count.
pub open spec fn grouped_delta<C: CountToken>(
    c: C,
    m: Map<Seq<char>, Seq<char>>,
    d: Seq<Seq<char>>,
    ns: Seq<Seq<char>>,
    j: int,
) -> int
    decreases j,
{
    if j <= 0 {
        0
    } else {
        grouped_delta(c, m, d, ns, j - 1) + (c.spec_count(m[d[j - 1]]) - c.spec_count(
            scan::delimited(d[j - 1]),
        )) * scan::count_of(ns, d[j - 1])
    }
}

/// Grouping over an empty occurrence list sums to zero.
proof fn lemma_grouped_zero<C: CountToken>(
    c: C,
    m: Map<Seq<char>, Seq<char>>,
    d: Seq<Seq<char>>,
    j: int,
)
    ensures
        grouped_delta(c, m, d, Seq::<Seq<char>>::empty(), j) == 0,
    decreases j,
{
    if j > 0 {
        lemma_grouped_zero(c, m, d, j - 1);
        assert(scan::count_of(Seq::<Seq<char>>::empty(), d[j - 1]) == 0);
        assert((c.spec_count(m[d[j - 1]]) - c.spec_count(scan::delimited(d[j - 1]))) * 0 == 0);
    }
}

/// Appending one occurrence adds its change to the group of its name.
proof fn lemma_grouped_push<C: CountToken>(
    c: C,
    m: Map<Seq<char>, Seq<char>>,
    d: Seq<Seq<char>>,
    ns: Seq<Seq<char>>,
    x: Seq<char>,
    j: int,
)
    requires
        d.no_duplicates(),
        0 <= j <= d.len(),
    ensures
        grouped_delta(c, m, d, ns.push(x), j) == grouped_delta(c, m, d, ns, j) + if d.take(
            j,
        ).contains(x) {
            c.spec_count(m[x]) - c.spec_count(scan::delimited(x))
        } else {
            0
        },
    decreases j,
{
    if j > 0 {
        lemma_grouped_push(c, m, d, ns, x, j - 1);
        assert(ns.push(x).drop_last() =~= ns);
        assert(ns.push(x).last() == x);
        assert(scan::count_of(ns.push(x), d[j - 1]) == scan::count_of(ns, d[j - 1]) + if d[j - 1]
            == x {
            1int
        } else {
            0int
        });
        let fv = c.spec_count(m[d[j - 1]]) - c.spec_count(scan::delimited(d[j - 1]));
        let cnt = scan::count_of(ns, d[j - 1]) as int;
        assert(fv * (cnt + 1) == fv * cnt + fv) by (nonlinear_arith);
        if d[j - 1] == x {
            assert forall|i: int| 0 <= i < j - 1 implies #[trigger] d.take(j - 1)[i] != x by {
                assert(d.take(j - 1)[i] == d[i]);
            }
            assert(!d.take(j - 1).contains(x));
            assert(d.take(j)[j - 1] == x);
            assert(d.take(j).contains(x));
        } else {
            if d.take(j - 1).contains(x) {
                let i = choose|i: int|
                    0 <= i < d.take(j - 1).len() && #[trigger] d.take(j - 1)[i] == x;
                assert(d.take(j)[i] == x);
                assert(d.take(j).contains(x));
            } else if d.take(j).contains(x) {
                let i = choose|i: int| 0 <= i < d.take(j).len() && #[trigger] d.take(j)[i] == x;
                assert(i != j - 1);
                assert(d.take(j - 1)[i] == x);
                assert(false);
            }
        }
    }
}

/// The sum over the occurrence names equals the sum grouped by distinct
/// names, when the distinct names cover every occurrence.
proof fn lemma_group<C: CountToken>(
    c: C,
    m: Map<Seq<char>, Seq<char>>,
    d: Seq<Seq<char>>,
    ns: Seq<Seq<char>>,
)
    requires
        d.no_duplicates(),
        forall|t: int| 0 <= t < ns.len() ==> d.contains(#[trigger] ns[t]),
    ensures
        names_delta(c, m, ns) == grouped_delta(c, m, d, ns, d.len() as int),
    decreases ns.len(),
{
    if ns.len() == 0 {
        lemma_grouped_zero(c, m, d, d.len() as int);
        assert(ns =~= Seq::<Seq<char>>::empty());
    } else {
        let ns0 = ns.drop_last();
        let x = ns.last();
        assert forall|t: int| 0 <= t < ns0.len() implies d.contains(#[trigger] ns0[t]) by {
            assert(ns0[t] == ns[t]);
        }
        lemma_group(c, m, d, ns0);
        assert(ns0.push(x) =~= ns);
        lemma_grouped_push(c, m, d, ns0, x, d.len() as int);
        assert(d.take(d.len() as int) =~= d);
        assert(d.contains(x));
    }
}

/// The cache's per-placeholder sums, with every placeholder overridden,
/// equal the grouped sum over the occurrence names.
proof fn lemma_prefix_group<C: CountToken>(
    c: C,
    pp: PartialPrompt,
    m: Map<Seq<char>, Seq<char>>,
    j: int,
)
    requires
        pp.wf(),
        forall|n: Seq<char>|
            #[trigger] pp.placeholders_set().contains(n) ==> m.dom().contains(n),
        0 <= j <= pp.placeholder_names().len(),
    ensures
        value_cost_prefix(c, pp, m, j) - name_cost_prefix(c, pp, j) == grouped_delta(
            c,
            m,
            pp.placeholder_names(),
            scan::match_names(pp.template_model().text),
            j,
        ),
    decreases j,
{
    if j > 0 {
        lemma_prefix_group(c, pp, m, j - 1);
        let n = pp.placeholder_names()[j - 1];
        assert(pp.placeholders_set().contains(n));
        assert(m.dom().contains(n));
        assert(effective_cost(c, pp, m, j - 1) == c.spec_count(m[n]) as int);
        assert(scan::occurrences(pp.template_model().text, n) == scan::count_of(
            scan::match_names(pp.template_model().text),
            n,
        ));
        let v = c.spec_count(m[n]) as int;
        let w = c.spec_count(scan::delimited(n)) as int;
        let occ = scan::occurrences(pp.template_model().text, n) as int;
        assert((v - w) * occ == v * occ - w * occ) by (nonlinear_arith);
    }
}

/// Cache agreement for additive counters: when the counter is additive
/// over concatenation and every placeholder is given a value by `m`, the
/// cache's hypothetical total equals the cost of the fully rendered
/// text. For non-additive counters (such as byte-pair tokenizers) the
/// total is an approximation; divergence there is expected.
pub proof fn lemma_cache_agreement<C: CountToken>(
    c: C,
    pp: PartialPrompt,
    m: Map<Seq<char>, Seq<char>>,
)
    requires
        additive(c),
        pp.wf(),
        forall|n: Seq<char>|
            #[trigger] pp.placeholders_set().contains(n) ==> m.dom().contains(n),
    ensures
        c.spec_count(scan::rendered(pp.template_model().text, m)) == prompt_token_total(
            c,
            pp,
            m,
        ),
{
    let s = pp.template_model().text;
    lemma_render_cost(c, s, m, 0);
    assert(s.subrange(0, s.len() as int) =~= s);
    lemma_match_delta_names(c, s, m, 0);
    let d = pp.placeholder_names();
    assert forall|t: int|
        0 <= t < scan::match_names(s).len() implies d.contains(
        #[trigger] scan::match_names(s)[t],
    ) by {
        assert(scan::match_names(s).contains(scan::match_names(s)[t]));
        assert(scan::names_set(s).contains(scan::match_names(s)[t]));
        assert(d.to_set().contains(scan::match_names(s)[t]));
    }
    lemma_group(c, m, d, scan::match_names(s));
    lemma_prefix_group(c, pp, m, d.len() as int);
}

/// A vector of zeroes sums to zero.
proof fn lemma_sum_zeros(s: Seq<usize>)
    requires
        forall|i: int| 0 <= i < s.len() ==> (#[trigger] s[i]) == 0,
    ensures
        sum_usizes(s) == 0,
    decreases s.len(),
{
    if s.len() > 0 {
        lemma_sum_zeros(s.drop_last());
    }
}

} // verus!
