//! Prompt templates and partial prompts.
//!
//! A [`PromptTemplate`] is the immutable compiled form of a template
//! string: the text, the distinct placeholder names scanned from it, and
//! an opaque metadata document. A [`PartialPrompt`] binds a template to a
//! mutable fill state: each placeholder is either unset or holds a value,
//! and the set of still-unset placeholders is kept alongside. When every
//! placeholder is filled, [`PartialPrompt::complete`] substitutes all
//! occurrences and returns the final text.

use std::sync::Arc;

use vstd::prelude::*;

use crate::errors::PlaceholderNotExist;
use crate::errors::UnfilledPlaceholders;
use crate::metadata::JsonMap;
use crate::scan;
use crate::scan::clone_string_vec;
use crate::scan::find_name_index;
use crate::scan::string_views;

verus! {

/// The mathematical content of a prompt template: its text, its distinct
/// placeholder names in order of first occurrence, and its metadata.
pub ghost struct TemplateModel {
    pub text: Seq<char>,
    pub names: Seq<Seq<char>>,
    pub meta: JsonMap,
}

/// The view of one fill slot.
pub open spec fn opt_view(o: Option<String>) -> Option<Seq<char>> {
    match o {
        Some(s) => Some(s@),
        None => None,
    }
}

/// The views of a vector of fill slots.
pub open spec fn opt_views(v: Seq<Option<String>>) -> Seq<Option<Seq<char>>> {
    v.map_values(|o: Option<String>| opt_view(o))
}

/// An immutable, shareable compiled template: raw text plus the set of
/// placeholder names extracted from it, plus opaque metadata.
#[derive(Debug)]
pub struct PromptTemplate {
    pub(crate) text: Arc<String>,
    pub(crate) placeholders: Vec<String>,
    pub(crate) meta_data: Arc<JsonMap>,
}

impl PromptTemplate {
    /// The template text.
    pub open(crate) spec fn text_view(self) -> Seq<char> {
        self.text@
    }

    /// The distinct placeholder names, in order of first occurrence in the
    /// text.
    pub open(crate) spec fn names(self) -> Seq<Seq<char>> {
        string_views(self.placeholders@)
    }

    /// The set of placeholder names.
    pub open spec fn names_set(self) -> Set<Seq<char>> {
        self.names().to_set()
    }

    /// The metadata document.
    pub open(crate) spec fn metadata(self) -> JsonMap {
        *self.meta_data
    }

    /// The whole mathematical content of the template.
    pub open spec fn model(self) -> TemplateModel {
        TemplateModel { text: self.text_view(), names: self.names(), meta: self.metadata() }
    }

    /// A well-formed template records exactly the distinct names scanned
    /// from its text, in order of first occurrence.
    pub open spec fn wf(self) -> bool {
        &&& self.names() == scan::distinct_names(self.text_view())
        &&& self.names().no_duplicates()
        &&& self.names().to_set() == scan::names_set(self.text_view())
    }

    /// Compiles a template string without metadata.
    pub fn new(template: String) -> (r: Self)
        ensures
            r.wf(),
            r.text_view() == template@,
    {
        Self::with_metadata(template, serde_json::Map::new())
    }

    /// Compiles a template string and attaches a metadata document. A
    /// template without placeholders is permitted; it is simply already
    /// complete.
    pub fn with_metadata(template: String, metadata: JsonMap) -> (r: Self)
        ensures
            r.wf(),
            r.text_view() == template@,
            r.metadata() == metadata,
    {
        let placeholders = scan::get_placeholders(template.as_str());
        proof {
            scan::lemma_distinct_names_props(template@);
        }
        PromptTemplate {
            text: Arc::new(template),
            placeholders,
            meta_data: Arc::new(metadata),
        }
    }

    /// The template text.
    pub fn str(&self) -> (r: &str)
        ensures
            r@ == self.text_view(),
    {
        (&*self.text).as_str()
    }

    /// Read access to the distinct placeholder names.
    pub fn placeholders(&self) -> (r: &Vec<String>)
        ensures
            string_views(r@) == self.names(),
    {
        &self.placeholders
    }

    /// Read access to the metadata document.
    pub fn meta_data(&self) -> (r: &JsonMap)
        ensures
            *r == self.metadata(),
    {
        &*self.meta_data
    }

    /// Starts a fill session: a partial prompt over this template with
    /// every placeholder unset.
    pub fn construct_prompt(&self) -> (r: PartialPrompt)
        requires
            self.wf(),
        ensures
            r.wf(),
            r.template_model() == self.model(),
            r.unfilled_set() == self.names_set(),
            forall|n: Seq<char>|
                self.names_set().contains(n) ==> #[trigger] r.value_of(n) is None,
    {
        let mut vals: Vec<Option<String>> = Vec::new();
        let mut j: usize = 0;
        while j < self.placeholders.len()
            invariant
                j <= self.placeholders@.len(),
                vals@.len() == j,
                forall|i: int| 0 <= i < j ==> (#[trigger] vals@[i]) is None,
            decreases self.placeholders@.len() - j,
        {
            vals.push(None);
            j = j + 1;
        }
        let r = PartialPrompt {
            template: self.clone(),
            placeholder_to_vals: vals,
            unfilled_placeholders: clone_string_vec(&self.placeholders),
        };
        proof {
            assert forall|n: Seq<char>|
                self.names_set().contains(n) implies #[trigger] r.value_of(n) is None by {
                let i = r.index_of(n);
                assert(r.vals_view()[i] is None);
            }
        }
        r
    }
}

impl Clone for PromptTemplate {
    /// Duplicates the template; the text and metadata stay shared.
    fn clone(&self) -> (r: Self)
        ensures
            r.model() == self.model(),
    {
        PromptTemplate {
            text: self.text.clone(),
            placeholders: clone_string_vec(&self.placeholders),
            meta_data: self.meta_data.clone(),
        }
    }
}

/// A template bound to an in-progress fill state: every placeholder of the
/// template is either unset or holds a value, and the subset still unset
/// is kept alongside for a cheap completeness check.
#[derive(Debug)]
pub struct PartialPrompt {
    pub(crate) template: PromptTemplate,
    pub(crate) placeholder_to_vals: Vec<Option<String>>,
    pub(crate) unfilled_placeholders: Vec<String>,
}

impl PartialPrompt {
    /// The underlying template.
    pub open(crate) spec fn template_spec(self) -> PromptTemplate {
        self.template
    }

    /// The mathematical content of the underlying template.
    pub open spec fn template_model(self) -> TemplateModel {
        self.template_spec().model()
    }

    /// The placeholder names of the underlying template, in order.
    pub open spec fn placeholder_names(self) -> Seq<Seq<char>> {
        self.template_spec().names()
    }

    /// The set of placeholder names of the underlying template.
    pub open spec fn placeholders_set(self) -> Set<Seq<char>> {
        self.placeholder_names().to_set()
    }

    /// The fill slots, in placeholder order.
    pub open(crate) spec fn vals_view(self) -> Seq<Option<Seq<char>>> {
        opt_views(self.placeholder_to_vals@)
    }

    /// The still-unset placeholder names, as recorded.
    pub open(crate) spec fn unfilled_views(self) -> Seq<Seq<char>> {
        string_views(self.unfilled_placeholders@)
    }

    /// The set of still-unset placeholder names.
    pub open spec fn unfilled_set(self) -> Set<Seq<char>> {
        self.unfilled_views().to_set()
    }

    /// The position of a placeholder name in the template's name list.
    pub open spec fn index_of(self, n: Seq<char>) -> int {
        choose|i: int|
            0 <= i < self.placeholder_names().len() && self.placeholder_names()[i] == n
    }

    /// The fill state of one placeholder: its value, or `None` while
    /// unset.
    pub open spec fn value_of(self, n: Seq<char>) -> Option<Seq<char>> {
        self.vals_view()[self.index_of(n)]
    }

    /// The whole fill state: every placeholder name mapped to its value or
    /// to `None`.
    pub open spec fn values(self) -> Map<Seq<char>, Option<Seq<char>>> {
        Map::new(
            |n: Seq<char>| self.placeholders_set().contains(n),
            |n: Seq<char>| self.value_of(n),
        )
    }

    /// The names currently holding a value.
    pub open spec fn filled_set(self) -> Set<Seq<char>> {
        Set::new(
            |n: Seq<char>| self.placeholders_set().contains(n) && self.value_of(n) is Some,
        )
    }

    /// The values of the filled placeholders, as a total map on the filled
    /// names.
    pub open spec fn fill_map(self) -> Map<Seq<char>, Seq<char>> {
        Map::new(
            |n: Seq<char>| self.filled_set().contains(n),
            |n: Seq<char>|
                match self.value_of(n) {
                    Some(v) => v,
                    None => Seq::empty(),
                },
        )
    }

    /// A well-formed partial prompt: the template is well formed, there is
    /// one fill slot per placeholder, and the recorded unfilled names are
    /// exactly the placeholders whose slot is unset.
    pub open spec fn wf(self) -> bool {
        &&& self.template_spec().wf()
        &&& self.vals_view().len() == self.placeholder_names().len()
        &&& self.unfilled_views().no_duplicates()
        &&& forall|n: Seq<char>|
            #[trigger] self.unfilled_set().contains(n) ==> self.placeholders_set().contains(n)
        &&& forall|i: int|
            0 <= i < self.placeholder_names().len() ==> ((#[trigger] self.vals_view()[i])
                is None <==> self.unfilled_set().contains(self.placeholder_names()[i]))
    }

    /// In a well-formed partial prompt the fill state of the `i`-th
    /// placeholder is the `i`-th slot.
    pub proof fn lemma_value_at(self, i: int)
        requires
            self.wf(),
            0 <= i < self.placeholder_names().len(),
        ensures
            self.value_of(self.placeholder_names()[i]) == self.vals_view()[i],
    {
        let n = self.placeholder_names()[i];
        let j = self.index_of(n);
        assert(0 <= j < self.placeholder_names().len() && self.placeholder_names()[j] == n);
    }

    /// Read access to the underlying template.
    pub fn template(&self) -> (r: &PromptTemplate)
        ensures
            *r == self.template_spec(),
    {
        &self.template
    }

    /// Read access to one fill slot.
    pub fn value_at(&self, j: usize) -> (r: &Option<String>)
        requires
            j < self.vals_view().len(),
        ensures
            opt_view(*r) == self.vals_view()[j as int],
    {
        &self.placeholder_to_vals[j]
    }

    /// Read access to the recorded unfilled placeholder names.
    pub fn unfilled(&self) -> (r: &Vec<String>)
        ensures
            string_views(r@) == self.unfilled_views(),
    {
        &self.unfilled_placeholders
    }

    /// Records `value` for `placeholder`. Filling a placeholder that is
    /// already filled overwrites its value. Fails, leaving the fill state
    /// untouched, exactly when the template has no such placeholder.
    pub fn try_fill(&mut self, placeholder: &str, value: &str) -> (r: Result<
        (),
        PlaceholderNotExist,
    >)
        requires
            old(self).wf(),
        ensures
            final(self).wf(),
            final(self).template_model() == old(self).template_model(),
            r is Ok <==> old(self).placeholders_set().contains(placeholder@),
            match r {
                Ok(u) => {
                    &&& final(self).values() == old(self).values().insert(
                        placeholder@,
                        Some(value@),
                    )
                    &&& final(self).unfilled_set() == old(self).unfilled_set().remove(
                        placeholder@,
                    )
                },
                Err(e) => {
                    &&& final(self).values() == old(self).values()
                    &&& final(self).unfilled_set() == old(self).unfilled_set()
                    &&& e.try_fill_placeholder@ == placeholder@
                    &&& e.value@ == value@
                    &&& string_views(e.available_placeholders@) == old(self).placeholder_names()
                },
            },
    {
        let p = placeholder.to_owned();
        match find_name_index(&self.template.placeholders, &p) {
            Some(j) => {
                let ghost pre = *self;
                remove_string(&mut self.unfilled_placeholders, &p);
                self.placeholder_to_vals.set(j, Some(value.to_owned()));
                proof {
                    assert(self.vals_view() =~= pre.vals_view().update(
                        j as int,
                        Some(value@),
                    ));
                    lemma_fill_updates(pre, *self, j as int, placeholder@, value@);
                }
                Ok(())
            },
            None => {
                Err(
                    PlaceholderNotExist::new(
                        p,
                        value.to_owned(),
                        &self.template.placeholders,
                    ),
                )
            },
        }
    }

    /// Records `value` for `placeholder`, which the caller must know to be
    /// a placeholder of the template.
    pub fn fill(&mut self, placeholder: &str, value: &str)
        requires
            old(self).wf(),
            old(self).placeholders_set().contains(placeholder@),
        ensures
            final(self).wf(),
            final(self).template_model() == old(self).template_model(),
            final(self).values() == old(self).values().insert(placeholder@, Some(value@)),
            final(self).unfilled_set() == old(self).unfilled_set().remove(placeholder@),
    {
        let r = self.try_fill(placeholder, value);
        proof {
            assert(r is Ok);
        }
    }

    /// Substitutes every placeholder occurrence of the template text with
    /// its recorded value and returns the final text. Fails, reporting the
    /// unfilled and the full name sets, exactly when a placeholder is
    /// still unset.
    pub fn complete(&self) -> (r: Result<String, UnfilledPlaceholders>)
        requires
            self.wf(),
        ensures
            r is Ok <==> self.unfilled_set() == Set::<Seq<char>>::empty(),
            match r {
                Ok(s) => s@ == scan::rendered(self.template_model().text, self.fill_map()),
                Err(e) => {
                    &&& string_views(e.unfilled_placeholders@) == self.unfilled_views()
                    &&& string_views(e.all_placeholders@) == self.placeholder_names()
                },
            },
    {
        if self.unfilled_placeholders.len() == 0 {
            proof {
                assert(self.unfilled_set() =~= Set::<Seq<char>>::empty());
            }
            let mut pairs: Vec<(String, String)> = Vec::new();
            let n = self.template.placeholders.len();
            let mut j: usize = 0;
            while j < n
                invariant
                    self.wf(),
                    n == self.placeholder_names().len(),
                    self.unfilled_set() == Set::<Seq<char>>::empty(),
                    j <= n,
                    pairs@.len() == j,
                    forall|i: int|
                        0 <= i < j ==> (#[trigger] pairs@[i]).0@ == self.placeholder_names()[i]
                            && Some(pairs@[i].1@) == self.vals_view()[i],
                decreases n - j,
            {
                proof {
                    assert(self.vals_view()[j as int] is None ==> self.unfilled_set().contains(
                        self.placeholder_names()[j as int],
                    ));
                }
                let name = self.template.placeholders[j].clone();
                match &self.placeholder_to_vals[j] {
                    Some(v) => {
                        pairs.push((name, v.clone()));
                    },
                    None => {
                        proof {
                            assert(opt_views(self.placeholder_to_vals@)[j as int] is None);
                            assert(false);
                        }
                    },
                }
                j = j + 1;
            }
            proof {
                lemma_complete_pairs(*self, pairs@);
            }
            let out = scan::replace_all_placeholders(self.template.str(), &pairs);
            Ok(out)
        } else {
            proof {
                assert(self.unfilled_views().len() > 0);
                assert(self.unfilled_set().contains(self.unfilled_views()[0]));
            }
            Err(
                UnfilledPlaceholders {
                    all_placeholders: clone_string_vec(&self.template.placeholders),
                    unfilled_placeholders: clone_string_vec(&self.unfilled_placeholders),
                },
            )
        }
    }
}

/// After a successful fill of slot `j`, the fill state is the old one with
/// one binding replaced and the name dropped from the unfilled set.
proof fn lemma_fill_updates(
    pre: PartialPrompt,
    post: PartialPrompt,
    j: int,
    name: Seq<char>,
    value: Seq<char>,
)
    requires
        pre.wf(),
        0 <= j < pre.placeholder_names().len(),
        pre.placeholder_names()[j] == name,
        post.template_spec() == pre.template_spec(),
        post.vals_view() == pre.vals_view().update(j, Some(value)),
        post.unfilled_views().no_duplicates(),
        post.unfilled_set() == pre.unfilled_set().remove(name),
    ensures
        post.wf(),
        post.values() == pre.values().insert(name, Some(value)),
{
    assert forall|i: int| 0 <= i < post.placeholder_names().len() implies ((
    #[trigger] post.vals_view()[i]) is None <==> post.unfilled_set().contains(
        post.placeholder_names()[i],
    )) by {
        if i != j {
            assert(pre.vals_view()[i] == post.vals_view()[i]);
            assert(pre.placeholder_names()[i] != name);
        }
    }
    assert(post.wf());
    assert forall|n: Seq<char>| true implies #[trigger] post.values().dom().contains(n)
        == pre.values().insert(name, Some(value)).dom().contains(n) by {}
    assert forall|n: Seq<char>| post.values().dom().contains(n) implies post.values()[n]
        == pre.values().insert(name, Some(value))[n] by {
        let i = post.index_of(n);
        assert(0 <= i < post.placeholder_names().len() && post.placeholder_names()[i] == n);
        post.lemma_value_at(i);
        pre.lemma_value_at(i);
        if n == name {
            assert(i == j);
            assert(post.value_of(n) == Some(value));
        } else {
            assert(i != j);
            assert(post.value_of(n) == pre.value_of(n));
        }
    }
    assert(post.values() =~= pre.values().insert(name, Some(value)));
}

/// The pair list built from a fully filled prompt denotes its fill map.
proof fn lemma_complete_pairs(pp: PartialPrompt, pairs: Seq<(String, String)>)
    requires
        pp.wf(),
        pp.unfilled_set() == Set::<Seq<char>>::empty(),
        pairs.len() == pp.placeholder_names().len(),
        forall|i: int|
            0 <= i < pairs.len() ==> (#[trigger] pairs[i]).0@ == pp.placeholder_names()[i]
                && Some(pairs[i].1@) == pp.vals_view()[i],
    ensures
        scan::pairs_to_map(pairs) == pp.fill_map(),
        forall|n: Seq<char>|
            scan::names_set(pp.template_model().text).contains(n)
                ==> scan::pairs_to_map(pairs).dom().contains(n),
{
    let m = scan::pairs_to_map(pairs);
    assert forall|n: Seq<char>| m.dom().contains(n) == pp.fill_map().dom().contains(n) by {
        scan::lemma_pairs_to_map_dom(pairs, n);
        if m.dom().contains(n) {
            let i = choose|i: int| 0 <= i < pairs.len() && (#[trigger] pairs[i]).0@ == n;
            pp.lemma_value_at(i);
            assert(pp.value_of(n) is Some);
            assert(pp.fill_map().dom().contains(n));
        }
        if pp.fill_map().dom().contains(n) {
            let i = pp.index_of(n);
            assert(0 <= i < pp.placeholder_names().len() && pp.placeholder_names()[i] == n);
            assert(pairs[i].0@ == n);
        }
    }
    assert forall|n: Seq<char>| m.dom().contains(n) implies m[n] == pp.fill_map()[n] by {
        scan::lemma_pairs_to_map_dom(pairs, n);
        let i = choose|i: int| 0 <= i < pairs.len() && (#[trigger] pairs[i]).0@ == n;
        assert forall|i2: int| 0 <= i2 < i implies (#[trigger] pairs[i2]).0@ != n by {
            if pairs[i2].0@ == n {
                assert(pp.placeholder_names()[i2] == pp.placeholder_names()[i]);
            }
        }
        scan::lemma_pairs_to_map_first(pairs, i);
        pp.lemma_value_at(i);
    }
    assert(m =~= pp.fill_map());
    assert forall|n: Seq<char>|
        scan::names_set(pp.template_model().text).contains(n) implies m.dom().contains(n) by {
        assert(pp.placeholders_set().contains(n));
        let i = pp.index_of(n);
        assert(0 <= i < pp.placeholder_names().len() && pp.placeholder_names()[i] == n);
        assert(pairs[i].0@ == n);
        scan::lemma_pairs_to_map_dom(pairs, n);
    }
}

impl Clone for PartialPrompt {
    /// Duplicates the fill session, keeping the template and the whole
    /// fill state.
    fn clone(&self) -> (r: Self)
        ensures
            r.template_model() == self.template_model(),
            r.vals_view() == self.vals_view(),
            r.unfilled_views() == self.unfilled_views(),
            r.wf() == self.wf(),
    {
        let r = PartialPrompt {
            template: self.template.clone(),
            placeholder_to_vals: clone_opt_string_vec(&self.placeholder_to_vals),
            unfilled_placeholders: clone_string_vec(&self.unfilled_placeholders),
        };
        proof {
            assert(r.template_spec().text_view() == self.template_spec().text_view());
            assert(r.template_spec().names() == self.template_spec().names());
            assert(r.template_spec().wf() == self.template_spec().wf());
            assert(r.unfilled_set() == self.unfilled_set());
            assert(r.wf() == self.wf());
        }
        r
    }
}

/// Copies a vector of fill slots, keeping every slot's state.
pub(crate) fn clone_opt_string_vec(v: &Vec<Option<String>>) -> (r: Vec<Option<String>>)
    ensures
        opt_views(r@) == opt_views(v@),
{
    let mut r: Vec<Option<String>> = Vec::new();
    let mut j: usize = 0;
    while j < v.len()
        invariant
            j <= v@.len(),
            opt_views(r@) =~= opt_views(v@).take(j as int),
        decreases v@.len() - j,
    {
        let ghost prev = r@;
        match &v[j] {
            Some(s) => {
                r.push(Some(s.clone()));
            },
            None => {
                r.push(None);
            },
        }
        proof {
            assert(opt_views(r@) =~= opt_views(prev).push(opt_view(v@[j as int])));
            assert(opt_views(r@) =~= opt_views(v@).take(j as int + 1));
        }
        j = j + 1;
    }
    assert(opt_views(r@) =~= opt_views(v@));
    r
}

/// Fill/unfilled consistency: at any time, the unfilled names are exactly
/// the template's placeholders minus the names that have been filled.
pub proof fn lemma_unfilled_consistency(pp: PartialPrompt)
    requires
        pp.wf(),
    ensures
        pp.unfilled_set() == pp.placeholders_set().difference(pp.filled_set()),
{
    assert forall|n: Seq<char>|
        pp.unfilled_set().contains(n) == pp.placeholders_set().difference(
            pp.filled_set(),
        ).contains(n) by {
        if pp.unfilled_set().contains(n) {
            assert(pp.placeholders_set().contains(n));
            let i = pp.index_of(n);
            assert(0 <= i < pp.placeholder_names().len() && pp.placeholder_names()[i] == n);
            assert(pp.vals_view()[i] is None);
        }
        if pp.placeholders_set().contains(n) && !pp.filled_set().contains(n) {
            let i = pp.index_of(n);
            assert(0 <= i < pp.placeholder_names().len() && pp.placeholder_names()[i] == n);
            pp.lemma_value_at(i);
            assert(pp.vals_view()[i] is None);
        }
    }
    assert(pp.unfilled_set() =~= pp.placeholders_set().difference(pp.filled_set()));
}

/// Re-fill idempotence of the bookkeeping: filling a placeholder that
/// already holds a value leaves the unfilled set unchanged, since the
/// name is already excluded from it.
pub proof fn lemma_refill_keeps_unfilled(pp: PartialPrompt, n: Seq<char>)
    requires
        pp.wf(),
        pp.placeholders_set().contains(n),
        pp.value_of(n) is Some,
    ensures
        pp.unfilled_set().remove(n) == pp.unfilled_set(),
{
    let i = pp.index_of(n);
    assert(0 <= i < pp.placeholder_names().len() && pp.placeholder_names()[i] == n);
    pp.lemma_value_at(i);
    assert(!pp.unfilled_set().contains(n));
    assert(pp.unfilled_set().remove(n) =~= pp.unfilled_set());
}

/// Relies on Arc::ptr_eq: two handles to the same allocation necessarily
/// hold the same value. Nothing is promised when the handles differ.
#[verifier::external_body]
fn arc_ptr_eq<T>(a: &Arc<T>, b: &Arc<T>) -> (r: bool)
    ensures
        r ==> *a == *b,
{
    Arc::ptr_eq(a, b)
}

impl PartialPrompt {
    /// Whether two partial prompts share the same template instance: the
    /// text and metadata allocations themselves, not just equal contents.
    pub(crate) fn is_from_same_template(&self, other: &Self) -> (r: bool)
        requires
            self.wf(),
            other.wf(),
        ensures
            r ==> self.template_model() == other.template_model(),
    {
        arc_ptr_eq(&self.template.text, &other.template.text) && arc_ptr_eq(
            &self.template.meta_data,
            &other.template.meta_data,
        )
    }
}

/// Removes the first entry equal to `x`, if any; keeps the rest in order.
pub(crate) fn remove_string(v: &mut Vec<String>, x: &String)
    requires
        string_views(old(v)@).no_duplicates(),
    ensures
        string_views(final(v)@).no_duplicates(),
        string_views(final(v)@).to_set() == string_views(old(v)@).to_set().remove(x@),
{
    let ghost orig = v@;
    let mut j: usize = 0;
    while j < v.len()
        invariant
            v@ == orig,
            orig == old(v)@,
            string_views(orig).no_duplicates(),
            j <= v@.len(),
            forall|i: int| 0 <= i < j ==> string_views(v@)[i] != x@,
        decreases v@.len() - j,
    {
        if v[j] == *x {
            assert(string_views(v@)[j as int] == x@);
            v.remove(j);
            proof {
                let old_views = string_views(orig);
                let new_views = string_views(v@);
                assert(old_views[j as int] == x@);
                assert(new_views =~= old_views.remove(j as int));
                assert forall|a: int, b: int|
                    0 <= a < new_views.len() && 0 <= b < new_views.len() && a != b
                        implies new_views[a] != new_views[b] by {
                    let a0: int = if a < j { a } else { a + 1 };
                    let b0: int = if b < j { b } else { b + 1 };
                    assert(new_views[a] == old_views[a0]);
                    assert(new_views[b] == old_views[b0]);
                }
                assert forall|n: Seq<char>|
                    new_views.to_set().contains(n) == old_views.to_set().remove(x@).contains(
                        n,
                    ) by {
                    if new_views.contains(n) {
                        let i = choose|i: int|
                            0 <= i < new_views.len() && #[trigger] new_views[i] == n;
                        if i < j {
                            assert(old_views[i] == n);
                            assert(old_views[i] != old_views[j as int]);
                        } else {
                            assert(old_views[i + 1] == n);
                            assert(old_views[i + 1] != old_views[j as int]);
                        }
                        assert(old_views.contains(n));
                        assert(n != x@);
                    }
                    if old_views.contains(n) && n != x@ {
                        let i = choose|i: int|
                            0 <= i < old_views.len() && #[trigger] old_views[i] == n;
                        if i < j {
                            assert(new_views[i] == n);
                        } else {
                            assert(i != j);
                            assert(new_views[i - 1] == n);
                        }
                        assert(new_views.contains(n));
                    }
                }
                assert(new_views.to_set() =~= old_views.to_set().remove(x@));
            }
            return ;
        }
        j = j + 1;
    }
    proof {
        assert(forall|i: int| 0 <= i < v@.len() ==> string_views(v@)[i] != x@);
        assert(!string_views(v@).contains(x@));
        assert(string_views(v@).to_set() =~= string_views(orig).to_set().remove(x@));
    }
}

} // verus!
