//! The code-completion controller: request lifecycle, a per-input result
//! cache, fuzzy filtering and ranking, and selection movement.

use vstd::prelude::*;

use fuzzy_matcher::skim::SkimMatcherV2;
use fuzzy_matcher::FuzzyMatcher;

use crate::snippet::chars_of;

verus! {

// ---------------------------------------------------------------------------
// Items
// ---------------------------------------------------------------------------

/// The payload of one completion candidate as the language server sent it:
/// its display label, an opaque kind tag, and an optional filter text.
pub struct CompletionItem {
    pub label: String,
    pub kind: Option<u64>,
    pub filter_text: Option<String>,
}

/// The mathematical shape of a candidate's payload.
#[verifier::ext_equal]
pub struct ItemModel {
    pub label: Seq<char>,
    pub kind: Option<u64>,
    pub filter_text: Option<Seq<char>>,
}

impl View for CompletionItem {
    type V = ItemModel;

    open spec fn view(&self) -> ItemModel {
        ItemModel {
            label: self.label@,
            kind: self.kind,
            filter_text: match self.filter_text {
                Some(f) => Some(f@),
                None => None,
            },
        }
    }
}

impl Clone for CompletionItem {
    fn clone(&self) -> (r: Self)
        ensures
            r@ == self@,
    {
        CompletionItem {
            label: self.label.clone(),
            kind: self.kind,
            filter_text: match &self.filter_text {
                Some(f) => Some(f.clone()),
                None => None,
            },
        }
    }
}

/// A candidate together with its ranking data: the primary fuzzy score, the
/// label-only tie-break score, and the matched label positions used for
/// highlighting.
pub struct ScoredCompletionItem {
    pub item: CompletionItem,
    pub index: usize,
    pub score: i64,
    pub label_score: i64,
    pub indices: Vec<usize>,
}

/// The mathematical shape of a scored candidate.
#[verifier::ext_equal]
pub struct ScoredModel {
    pub item: ItemModel,
    pub index: usize,
    pub score: i64,
    pub label_score: i64,
    pub indices: Seq<usize>,
}

impl View for ScoredCompletionItem {
    type V = ScoredModel;

    open spec fn view(&self) -> ScoredModel {
        ScoredModel {
            item: self.item@,
            index: self.index,
            score: self.score,
            label_score: self.label_score,
            indices: self.indices@,
        }
    }
}

impl Clone for ScoredCompletionItem {
    fn clone(&self) -> (r: Self)
        ensures
            r@ == self@,
    {
        let mut indices: Vec<usize> = Vec::new();
        let mut i: usize = 0;
        while i < self.indices.len()
            invariant
                i <= self.indices@.len(),
                indices@ == self.indices@.take(i as int),
            decreases self.indices@.len() - i,
        {
            indices.push(self.indices[i]);
            proof {
                assert(indices@ =~= self.indices@.take(i + 1));
            }
            i += 1;
        }
        proof {
            assert(self.indices@.take(self.indices@.len() as int) =~= self.indices@);
        }
        ScoredCompletionItem {
            item: self.item.clone(),
            index: self.index,
            score: self.score,
            label_score: self.label_score,
            indices,
        }
    }
}

/// The models of a sequence of scored candidates.
pub open spec fn svs(s: Seq<ScoredCompletionItem>) -> Seq<ScoredModel> {
    s.map_values(|x: ScoredCompletionItem| x@)
}

/// Whether the completion list is live.
#[derive(Clone, Copy, PartialEq, Eq, Structural, Debug)]
pub enum CompletionStatus {
    Inactive,
    Started,
}

// ---------------------------------------------------------------------------
// The pluggable fuzzy scorer
// ---------------------------------------------------------------------------

/// What the fuzzy scorer returns for a candidate text and a pattern: `None`
/// for no match, otherwise the score and the matched character positions.
pub uninterp spec fn fuzzy_match_spec(text: Seq<char>, pattern: Seq<char>) -> Option<
    (i64, Seq<usize>),
>;

/// Relies on fuzzy_matcher's `SkimMatcherV2::fuzzy_indices`, on the default
/// matcher with case folding switched on: the result is computed from the
/// candidate text and the pattern alone, and each matched index is a
/// character position within the candidate text.
#[verifier::external_body]
fn fuzzy_match(text: &str, pattern: &str) -> (r: Option<(i64, Vec<usize>)>)
    ensures
        (r is Some) == (fuzzy_match_spec(text@, pattern@) is Some),
        r matches Some(p) ==> fuzzy_match_spec(text@, pattern@) == Some((p.0, p.1@)),
        r matches Some(p) ==> forall|k: int| 0 <= k < p.1@.len() ==> p.1@[k] < text@.len(),
{
    let matcher = SkimMatcherV2::default().ignore_case();
    matcher.fuzzy_indices(text, pattern)
}

// ---------------------------------------------------------------------------
// Locating the filter text inside the label
// ---------------------------------------------------------------------------

/// The earliest occurrence of `f` in `l` at or after position `i`.
pub open spec fn spec_find_at(l: Seq<char>, f: Seq<char>, i: int) -> Option<int>
    decreases l.len() - i + 1,
{
    if i < 0 || i + f.len() > l.len() {
        None
    } else if l.subrange(i, i + f.len()) == f {
        Some(i)
    } else {
        spec_find_at(l, f, i + 1)
    }
}

/// The offset of the first occurrence of `f` in `l`, if any.
pub open spec fn spec_find(l: Seq<char>, f: Seq<char>) -> Option<int> {
    spec_find_at(l, f, 0)
}

/// Whether `l` matches `f` at position `i`.
fn matches_at(l: &Vec<char>, f: &Vec<char>, i: usize) -> (r: bool)
    requires
        i + f@.len() <= l@.len(),
    ensures
        r == (l@.subrange(i as int, i + f@.len()) == f@),
{
    let n = l.len();
    let fl = f.len();
    let mut j: usize = 0;
    loop
        invariant
            j <= fl,
            n == l@.len(),
            fl == f@.len(),
            i + f@.len() <= l@.len(),
            forall|k: int| 0 <= k < j ==> l@[i + k] == f@[k],
        ensures
            (j == f@.len() && forall|k: int| 0 <= k < j ==> l@[i + k] == f@[k]) || (j < f@.len()
                && l@[i + j as int] != f@[j as int]),
        decreases fl - j,
    {
        if j >= fl {
            break ;
        }
        if l[i + j] != f[j] {
            break ;
        }
        j += 1;
    }
    if j == f.len() {
        proof {
            assert(l@.subrange(i as int, i + f@.len()) =~= f@);
        }
        true
    } else {
        proof {
            assert(l@.subrange(i as int, i + f@.len())[j as int] == l@[i + j as int]);
        }
        false
    }
}

/// The first occurrence of `f` in `l`: how far the label must be shifted to
/// line up with its filter text.
fn find_first_sub(l: &Vec<char>, f: &Vec<char>) -> (r: Option<usize>)
    ensures
        (r is Some) == (spec_find(l@, f@) is Some),
        r matches Some(p) ==> spec_find(l@, f@) == Some(p as int) && p + f@.len() <= l@.len(),
{
    let n = l.len();
    let fl = f.len();
    if fl > n {
        return None;
    }
    if fl == 0 {
        proof {
            assert(l@.subrange(0, 0) =~= f@);
        }
        return Some(0);
    }
    let mut i: usize = 0;
    loop
        invariant
            i + fl <= n + 1,
            n == l@.len(),
            fl == f@.len(),
            1 <= fl <= n,
            spec_find(l@, f@) == spec_find_at(l@, f@, i as int),
        ensures
            spec_find(l@, f@) == spec_find_at(l@, f@, i as int),
            i + f@.len() <= l@.len() ==> l@.subrange(i as int, i + f@.len()) == f@,
            i + f@.len() > l@.len() ==> spec_find_at(l@, f@, i as int) is None,
            i <= l@.len(),
        decreases n - i,
    {
        if i > n - fl {
            break ;
        }
        if matches_at(l, f, i) {
            break ;
        }
        i += 1;
    }
    if i <= n - fl {
        Some(i)
    } else {
        None
    }
}

// ---------------------------------------------------------------------------
// Scoring a candidate pool against the filter input
// ---------------------------------------------------------------------------

/// The text a candidate is matched against: its explicit filter text when
/// present, else its display label.
pub open spec fn filter_text_of(it: ItemModel) -> Seq<char> {
    match it.filter_text {
        Some(f) => f,
        None => it.label,
    }
}

/// How one pool entry fares against the input: dropped when its filter text
/// does not occur in its label or the scorer finds no match; otherwise
/// rescored, with the matched positions shifted into label space and the
/// label-only score as tie-break (falling back to the primary score when the
/// label itself does not match).
pub open spec fn score_item(it: ScoredModel, input: Seq<char>) -> Option<ScoredModel> {
    let ft = filter_text_of(it.item);
    match spec_find(it.item.label, ft) {
        None => None,
        Some(shift) => match fuzzy_match_spec(ft, input) {
            None => None,
            Some((sc, idx)) => {
                let ls = match fuzzy_match_spec(it.item.label, input) {
                    Some(p) => p.0,
                    None => sc,
                };
                Some(
                    ScoredModel {
                        item: it.item,
                        index: it.index,
                        score: sc,
                        label_score: ls,
                        indices: idx.map_values(|v: usize| (v + shift) as usize),
                    },
                )
            },
        },
    }
}

/// The surviving candidates of a pool, rescored, in pool order.
pub open spec fn score_pool(pool: Seq<ScoredModel>, input: Seq<char>) -> Seq<ScoredModel>
    decreases pool.len(),
{
    if pool.len() == 0 {
        Seq::empty()
    } else {
        match score_item(pool[0], input) {
            None => score_pool(pool.drop_first(), input),
            Some(x) => seq![x] + score_pool(pool.drop_first(), input),
        }
    }
}

// ---------------------------------------------------------------------------
// Ranking
// ---------------------------------------------------------------------------

/// The display order: higher primary score first; ties broken by higher
/// label score; remaining ties by shorter label.
pub open spec fn ranks_before(a: ScoredModel, b: ScoredModel) -> bool {
    ||| a.score > b.score
    ||| (a.score == b.score && a.label_score > b.label_score)
    ||| (a.score == b.score && a.label_score == b.label_score && a.item.label.len()
        < b.item.label.len())
}

/// Inserts `x` behind every already-placed candidate it does not outrank:
/// the stable insertion step.
pub open spec fn spec_insert(s: Seq<ScoredModel>, x: ScoredModel) -> Seq<ScoredModel>
    decreases s.len(),
{
    if s.len() == 0 {
        seq![x]
    } else if ranks_before(x, s[0]) {
        seq![x] + s
    } else {
        seq![s[0]] + spec_insert(s.drop_first(), x)
    }
}

/// The stable sort by `ranks_before`: candidates the order does not separate
/// keep their relative position.
pub open spec fn spec_sort(s: Seq<ScoredModel>) -> Seq<ScoredModel>
    decreases s.len(),
{
    if s.len() == 0 {
        Seq::empty()
    } else {
        spec_insert(spec_sort(s.drop_last()), s.last())
    }
}

/// Where the scan of the executable insertion stops is where `spec_insert`
/// places the element.
proof fn lemma_spec_insert_at(s: Seq<ScoredModel>, x: ScoredModel, p: int)
    requires
        0 <= p <= s.len(),
        forall|j: int| 0 <= j < p ==> !ranks_before(x, s[j]),
        p < s.len() ==> ranks_before(x, s[p]),
    ensures
        spec_insert(s, x) == s.take(p) + seq![x] + s.skip(p),
    decreases s.len(),
{
    if s.len() == 0 {
        assert(spec_insert(s, x) =~= s.take(0) + seq![x] + s.skip(0));
    } else if p == 0 {
        assert(ranks_before(x, s[0]));
        assert(spec_insert(s, x) =~= s.take(0) + seq![x] + s.skip(0));
    } else {
        assert(!ranks_before(x, s[0]));
        let t = s.drop_first();
        assert forall|j: int| 0 <= j < p - 1 implies !ranks_before(x, t[j]) by {
            assert(t[j] == s[j + 1]);
        }
        assert(p - 1 < t.len() ==> ranks_before(x, t[p - 1])) by {
            if p - 1 < t.len() {
                assert(t[p - 1] == s[p as int]);
            }
        }
        lemma_spec_insert_at(t, x, p - 1);
        assert(seq![s[0]] + (t.take(p - 1) + seq![x] + t.skip(p - 1)) =~= s.take(p) + seq![x]
            + s.skip(p));
    }
}

/// Decides `ranks_before` for two live candidates.
fn comes_before(a: &ScoredCompletionItem, b: &ScoredCompletionItem) -> (r: bool)
    ensures
        r == ranks_before(a@, b@),
{
    if a.score > b.score {
        true
    } else if a.score < b.score {
        false
    } else if a.label_score > b.label_score {
        true
    } else if a.label_score < b.label_score {
        false
    } else {
        a.item.label.as_str().unicode_len() < b.item.label.as_str().unicode_len()
    }
}

/// Stable insertion sort of the scored candidates by the display order.
fn sort_scored(items: Vec<ScoredCompletionItem>) -> (r: Vec<ScoredCompletionItem>)
    ensures
        svs(r@) == spec_sort(svs(items@)),
{
    let n = items.len();
    let mut out: Vec<ScoredCompletionItem> = Vec::new();
    let mut i: usize = 0;
    while i < n
        invariant
            i <= n,
            n == items@.len(),
            svs(out@) == spec_sort(svs(items@.take(i as int))),
        decreases n - i,
    {
        let x = items[i].clone();
        let m = out.len();
        let mut p: usize = 0;
        loop
            invariant
                p <= m,
                m == out@.len(),
                x@ == items@[i as int]@,
                forall|j: int| 0 <= j < p ==> !ranks_before(x@, out@[j]@),
            ensures
                p <= out@.len(),
                forall|j: int| 0 <= j < p ==> !ranks_before(x@, out@[j]@),
                p < out@.len() ==> ranks_before(x@, out@[p as int]@),
            decreases m - p,
        {
            if p >= m {
                break ;
            }
            if comes_before(&x, &out[p]) {
                break ;
            }
            p += 1;
        }
        let ghost old_out = out@;
        out.insert(p, x);
        proof {
            assert forall|j: int| 0 <= j < p implies !ranks_before(x@, svs(old_out)[j]) by {
                assert(svs(old_out)[j] == old_out[j]@);
            }
            assert((p as int) < svs(old_out).len() ==> ranks_before(
                x@,
                svs(old_out)[p as int],
            )) by {
                if (p as int) < old_out.len() {
                    assert(svs(old_out)[p as int] == old_out[p as int]@);
                }
            }
            lemma_spec_insert_at(svs(old_out), x@, p as int);
            assert(svs(out@) =~= svs(old_out).take(p as int) + seq![x@] + svs(old_out).skip(
                p as int,
            ));
            let pref = svs(items@.take(i as int));
            let pref1 = svs(items@.take(i + 1));
            assert(pref1.drop_last() =~= pref);
            assert(pref1.last() == items@[i as int]@);
            assert(spec_sort(pref1) == spec_insert(spec_sort(pref), pref1.last()));
            assert(svs(out@) =~= spec_sort(pref1));
        }
        i += 1;
    }
    proof {
        assert(items@.take(n as int) =~= items@);
    }
    out
}

/// Scores one pool entry against the input, or drops it.
fn score_one(it: &ScoredCompletionItem, input: &str) -> (r: Option<ScoredCompletionItem>)
    ensures
        (r is Some) == (score_item(it@, input@) is Some),
        r matches Some(x) ==> score_item(it@, input@) == Some(x@),
{
    let label_chars = chars_of(it.item.label.as_str());
    let ft: &String = match &it.item.filter_text {
        Some(f) => f,
        None => &it.item.label,
    };
    proof {
        assert(ft@ == filter_text_of(it@.item));
    }
    let ft_chars = chars_of(ft.as_str());
    let shift = match find_first_sub(&label_chars, &ft_chars) {
        Some(s) => s,
        None => {
            return None;
        },
    };
    match fuzzy_match(ft.as_str(), input) {
        None => None,
        Some((sc, idx)) => {
            let ls = match fuzzy_match(it.item.label.as_str(), input) {
                Some(p) => p.0,
                None => sc,
            };
            let ghost shifted = idx@.map_values(|v: usize| (v + shift as int) as usize);
            let nl = label_chars.len();
            let mut new_indices: Vec<usize> = Vec::new();
            let mut k: usize = 0;
            while k < idx.len()
                invariant
                    k <= idx@.len(),
                    shift + ft_chars@.len() <= nl,
                    nl == label_chars@.len(),
                    forall|j: int| 0 <= j < idx@.len() ==> idx@[j] < ft_chars@.len(),
                    shifted == idx@.map_values(|v: usize| (v + shift as int) as usize),
                    new_indices@ == shifted.take(k as int),
                decreases idx@.len() - k,
            {
                new_indices.push(idx[k] + shift);
                proof {
                    assert(shifted[k as int] == (idx@[k as int] + shift as int) as usize);
                    assert(new_indices@ =~= shifted.take(k + 1));
                }
                k += 1;
            }
            proof {
                assert(shifted.take(idx@.len() as int) =~= shifted);
            }
            let mut scored = it.clone();
            scored.score = sc;
            scored.label_score = ls;
            scored.indices = new_indices;
            proof {
                let m = score_item(it@, input@);
                assert(m is Some);
                assert(m->Some_0.indices =~= shifted);
                assert(m == Some(scored@));
            }
            Some(scored)
        },
    }
}

// ---------------------------------------------------------------------------
// The controller
// ---------------------------------------------------------------------------

/// The controller's state: the live request id, lifecycle flag, filter
/// input, selection index, the per-input candidate cache, and the ranked
/// list currently displayed.
pub struct CompletionData {
    pub request_id: usize,
    pub status: CompletionStatus,
    pub offset: usize,
    pub buffer_id: u64,
    pub input: String,
    pub index: usize,
    pub input_items: Vec<(String, Vec<ScoredCompletionItem>)>,
    empty: Vec<ScoredCompletionItem>,
    pub filtered_items: Vec<ScoredCompletionItem>,
}

/// The mathematical shape of the controller's state.
#[verifier::ext_equal]
pub struct CompletionModel {
    pub request_id: usize,
    pub status: CompletionStatus,
    pub offset: usize,
    pub buffer_id: u64,
    pub input: Seq<char>,
    pub index: usize,
    pub cache: Seq<(Seq<char>, Seq<ScoredModel>)>,
    pub filtered: Seq<ScoredModel>,
}

/// The model of the candidate cache.
pub open spec fn cache_view(c: Seq<(String, Vec<ScoredCompletionItem>)>) -> Seq<
    (Seq<char>, Seq<ScoredModel>),
> {
    c.map_values(|e: (String, Vec<ScoredCompletionItem>)| (e.0@, svs(e.1@)))
}

impl View for CompletionData {
    type V = CompletionModel;

    closed spec fn view(&self) -> CompletionModel {
        CompletionModel {
            request_id: self.request_id,
            status: self.status,
            offset: self.offset,
            buffer_id: self.buffer_id,
            input: self.input@,
            index: self.index,
            cache: cache_view(self.input_items@),
            filtered: svs(self.filtered_items@),
        }
    }
}

/// The candidates cached under `key`, if a response for that exact filter
/// string has been stored.
pub open spec fn cache_get(c: Seq<(Seq<char>, Seq<ScoredModel>)>, key: Seq<char>) -> Option<
    Seq<ScoredModel>,
>
    decreases c.len(),
{
    if c.len() == 0 {
        None
    } else if c[0].0 == key {
        Some(c[0].1)
    } else {
        cache_get(c.drop_first(), key)
    }
}

/// Stores `items` under `key`, replacing an earlier entry for the same key.
pub open spec fn cache_put(
    c: Seq<(Seq<char>, Seq<ScoredModel>)>,
    key: Seq<char>,
    items: Seq<ScoredModel>,
) -> Seq<(Seq<char>, Seq<ScoredModel>)>
    decreases c.len(),
{
    if c.len() == 0 {
        seq![(key, items)]
    } else if c[0].0 == key {
        seq![(key, items)] + c.drop_first()
    } else {
        seq![c[0]] + cache_put(c.drop_first(), key, items)
    }
}

/// The pool a filter pass draws from: the entry cached for the present
/// input when the server answered for it, else the unfiltered empty-input
/// entry, else nothing.
pub open spec fn all_items_m(m: CompletionModel) -> Seq<ScoredModel> {
    match cache_get(m.cache, m.input) {
        Some(v) => v,
        None => match cache_get(m.cache, Seq::<char>::empty()) {
            Some(v) => v,
            None => Seq::empty(),
        },
    }
}

/// What the user sees: the raw pool while the input is empty, else the
/// ranked filtered list.
pub open spec fn current_items_m(m: CompletionModel) -> Seq<ScoredModel> {
    if m.input.len() == 0 {
        all_items_m(m)
    } else {
        m.filtered
    }
}

/// One filter pass: with a nonempty input the displayed list is rebuilt
/// from the cached pool, rescored and stably sorted; an empty input leaves
/// the state alone.
pub open spec fn filter_items_m(m: CompletionModel) -> CompletionModel {
    if m.input.len() == 0 {
        m
    } else {
        CompletionModel { filtered: spec_sort(score_pool(all_items_m(m), m.input)), ..m }
    }
}

/// A keystroke: the new filter text replaces the old, the selection resets,
/// and — only while the list is live — the displayed list is refiltered.
pub open spec fn update_input_m(m: CompletionModel, input: Seq<char>) -> CompletionModel {
    let m1 = CompletionModel { input, index: 0, ..m };
    if m.status is Inactive {
        m1
    } else {
        filter_items_m(m1)
    }
}

/// A fresh server item carries no scores yet.
pub open spec fn wrap_items(items: Seq<ItemModel>) -> Seq<ScoredModel> {
    items.map_values(
        |it: ItemModel|
            ScoredModel {
                item: it,
                index: 0,
                score: 0,
                label_score: 0,
                indices: Seq::empty(),
            },
    )
}

/// A server response: dropped whole when the list is inactive or the
/// response's request id is not the live one; otherwise cached under the
/// input it answers and folded into the displayed list.
pub open spec fn receive_m(
    m: CompletionModel,
    request_id: usize,
    input: Seq<char>,
    items: Seq<ItemModel>,
) -> CompletionModel {
    if m.status is Inactive || m.request_id != request_id {
        m
    } else {
        filter_items_m(
            CompletionModel { cache: cache_put(m.cache, input, wrap_items(items)), ..m },
        )
    }
}

/// Cancelling a live list clears the input, the cache and the selection;
/// cancelling an inactive one does nothing.
pub open spec fn cancel_m(m: CompletionModel) -> CompletionModel {
    if m.status is Inactive {
        m
    } else {
        CompletionModel {
            status: CompletionStatus::Inactive,
            input: Seq::empty(),
            cache: Seq::empty(),
            index: 0,
            ..m
        }
    }
}

/// Selection moved one row down, wrapping; an empty list leaves it alone.
pub open spec fn next_m(m: CompletionModel) -> CompletionModel {
    let n = current_items_m(m).len();
    CompletionModel {
        index: if n == 0 {
            m.index
        } else if m.index + 1 < n {
            (m.index + 1) as usize
        } else {
            0
        },
        ..m
    }
}

/// Selection moved one row up, wrapping; an empty list leaves it alone.
pub open spec fn previous_m(m: CompletionModel) -> CompletionModel {
    let n = current_items_m(m).len();
    CompletionModel {
        index: if n == 0 {
            m.index
        } else if m.index == 0 {
            (n - 1) as usize
        } else {
            (m.index - 1) as usize
        },
        ..m
    }
}

/// The state a controller starts in: inactive, with nothing typed, nothing
/// cached and nothing shown.
pub open spec fn initial_model() -> CompletionModel {
    CompletionModel {
        request_id: 0,
        status: CompletionStatus::Inactive,
        offset: 0,
        buffer_id: 0,
        input: Seq::<char>::empty(),
        index: 0,
        cache: Seq::<(Seq<char>, Seq<ScoredModel>)>::empty(),
        filtered: Seq::<ScoredModel>::empty(),
    }
}

impl CompletionData {
    /// The structural invariant: cache keys are unique, and the stand-in
    /// list handed out when nothing is cached is empty.
    pub closed spec fn wf(&self) -> bool {
        &&& self.empty@.len() == 0
        &&& forall|i: int, j: int|
            0 <= i < j < self.input_items@.len() ==> self.input_items@[i].0@
                != self.input_items@[j].0@
    }

    /// A fresh, inactive controller with an empty cache.
    pub fn new() -> (r: Self)
        ensures
            r.wf(),
            r@ == initial_model(),
    {
        let r = CompletionData {
            request_id: 0,
            status: CompletionStatus::Inactive,
            offset: 0,
            buffer_id: 0,
            input: String::new(),
            index: 0,
            input_items: Vec::new(),
            empty: Vec::new(),
            filtered_items: Vec::new(),
        };
        proof {
            assert(cache_view(r.input_items@) =~= Seq::<(Seq<char>, Seq<ScoredModel>)>::empty());
            assert(svs(r.filtered_items@) =~= Seq::<ScoredModel>::empty());
        }
        r
    }
}

/// `cache_get` returns the entry at the first index whose key matches.
proof fn lemma_cache_get_index(c: Seq<(Seq<char>, Seq<ScoredModel>)>, key: Seq<char>, i: int)
    requires
        0 <= i <= c.len(),
        forall|j: int| 0 <= j < i ==> c[j].0 != key,
        i < c.len() ==> c[i].0 == key,
    ensures
        cache_get(c, key) == (if i < c.len() {
            Some(c[i].1)
        } else {
            None
        }),
    decreases c.len(),
{
    if i == 0 {
    } else {
        assert(c[0].0 != key);
        let t = c.drop_first();
        assert forall|j: int| 0 <= j < i - 1 implies t[j].0 != key by {
            assert(t[j] == c[j + 1]);
        }
        assert(i - 1 < t.len() ==> t[i - 1].0 == key) by {
            if i - 1 < t.len() {
                assert(t[i - 1] == c[i]);
            }
        }
        lemma_cache_get_index(t, key, i - 1);
    }
}

/// `cache_put` replaces the entry at the first matching index, or appends.
proof fn lemma_cache_put_at(
    c: Seq<(Seq<char>, Seq<ScoredModel>)>,
    key: Seq<char>,
    items: Seq<ScoredModel>,
    i: int,
)
    requires
        0 <= i <= c.len(),
        forall|j: int| 0 <= j < i ==> c[j].0 != key,
        i < c.len() ==> c[i].0 == key,
    ensures
        cache_put(c, key, items) == (if i < c.len() {
            c.update(i, (key, items))
        } else {
            c.push((key, items))
        }),
    decreases c.len(),
{
    if c.len() == 0 {
        assert(cache_put(c, key, items) =~= c.push((key, items)));
    } else if i == 0 {
        if c[0].0 == key {
            assert(cache_put(c, key, items) =~= c.update(0, (key, items)));
        } else {
            assert(i < c.len() ==> c[i].0 == key);
            assert(false);
        }
    } else {
        assert(c[0].0 != key);
        let t = c.drop_first();
        assert forall|j: int| 0 <= j < i - 1 implies t[j].0 != key by {
            assert(t[j] == c[j + 1]);
        }
        assert(i - 1 < t.len() ==> t[i - 1].0 == key) by {
            if i - 1 < t.len() {
                assert(t[i - 1] == c[i]);
            }
        }
        lemma_cache_put_at(t, key, items, i - 1);
        if i < c.len() {
            assert(seq![c[0]] + t.update(i - 1, (key, items)) =~= c.update(i, (key, items)));
        } else {
            assert(seq![c[0]] + t.push((key, items)) =~= c.push((key, items)));
        }
    }
}

/// Scoring a pool extended by one entry appends that entry's outcome.
proof fn lemma_score_pool_push(pool: Seq<ScoredModel>, x: ScoredModel, input: Seq<char>)
    ensures
        score_pool(pool.push(x), input) == score_pool(pool, input) + (match score_item(x, input) {
            None => Seq::<ScoredModel>::empty(),
            Some(y) => seq![y],
        }),
    decreases pool.len(),
{
    if pool.len() == 0 {
        assert(pool.push(x)[0] == x);
        assert(pool.push(x).drop_first() =~= Seq::<ScoredModel>::empty());
        assert(score_pool(Seq::<ScoredModel>::empty(), input) == Seq::<ScoredModel>::empty());
        match score_item(x, input) {
            None => {
                assert(score_pool(pool.push(x), input) =~= score_pool(pool, input));
            },
            Some(y) => {
                assert(score_pool(pool.push(x), input) =~= score_pool(pool, input) + seq![y]);
            },
        }
    } else {
        assert(pool.push(x).drop_first() =~= pool.drop_first().push(x));
        lemma_score_pool_push(pool.drop_first(), x, input);
        assert(pool.push(x)[0] == pool[0]);
        match score_item(x, input) {
            None => {
                assert(score_pool(pool.push(x), input) =~= score_pool(pool, input));
            },
            Some(y) => {
                assert(score_pool(pool.push(x), input) =~= score_pool(pool, input) + seq![y]);
            },
        }
    }
}

impl CompletionData {
    /// The cached pool the filter draws from: the entry for the present
    /// input if the server answered for it, else the unfiltered entry for
    /// the empty input, else an empty list.
    pub fn all_items(&self) -> (r: &Vec<ScoredCompletionItem>)
        requires
            self.wf(),
        ensures
            svs(r@) == all_items_m(self@),
    {
        let n = self.input_items.len();
        let mut i: usize = 0;
        while i < n
            invariant
                i <= n,
                n == self.input_items@.len(),
                forall|j: int| 0 <= j < i ==> self.input_items@[j].0@ != self.input@,
            decreases n - i,
        {
            if self.input_items[i].0 == self.input {
                proof {
                    lemma_cache_get_index(cache_view(self.input_items@), self.input@, i as int);
                }
                return &self.input_items[i].1;
            }
            i += 1;
        }
        proof {
            lemma_cache_get_index(cache_view(self.input_items@), self.input@, n as int);
        }
        let mut k: usize = 0;
        while k < n
            invariant
                k <= n,
                n == self.input_items@.len(),
                self.wf(),
                cache_get(cache_view(self.input_items@), self.input@) is None,
                forall|j: int| 0 <= j < k ==> self.input_items@[j].0@ != Seq::<char>::empty(),
            decreases n - k,
        {
            if self.input_items[k].0.as_str().is_empty() {
                proof {
                    assert(self.input_items@[k as int].0@ =~= Seq::<char>::empty());
                    lemma_cache_get_index(
                        cache_view(self.input_items@),
                        Seq::<char>::empty(),
                        k as int,
                    );
                }
                return &self.input_items[k].1;
            }
            proof {
                if self.input_items@[k as int].0@ =~= Seq::<char>::empty() {
                    assert(self.input_items@[k as int].0@.len() == 0);
                }
            }
            k += 1;
        }
        proof {
            lemma_cache_get_index(cache_view(self.input_items@), Seq::<char>::empty(), n as int);
            assert(svs(self.empty@) =~= Seq::<ScoredModel>::empty());
        }
        &self.empty
    }

    /// What the user currently sees: the raw pool while the input is empty,
    /// else the ranked filtered list.
    pub fn current_items(&self) -> (r: &Vec<ScoredCompletionItem>)
        requires
            self.wf(),
        ensures
            svs(r@) == current_items_m(self@),
    {
        if self.input.as_str().is_empty() {
            self.all_items()
        } else {
            &self.filtered_items
        }
    }

    /// How many rows the displayed list has.
    pub fn len(&self) -> (r: usize)
        requires
            self.wf(),
        ensures
            r == current_items_m(self@).len(),
    {
        self.current_items().len()
    }

    /// Whether the displayed list is empty.
    pub fn is_empty(&self) -> (r: bool)
        requires
            self.wf(),
        ensures
            r == (current_items_m(self@).len() == 0),
    {
        self.len() == 0
    }

    /// The payload of the selected row.
    pub fn current_item(&self) -> (r: &CompletionItem)
        requires
            self.wf(),
            self@.index < current_items_m(self@).len(),
        ensures
            r@ == current_items_m(self@)[self@.index as int].item,
    {
        let items = self.current_items();
        &items[self.index].item
    }

    /// The label of the selected row.
    pub fn current(&self) -> (r: &str)
        requires
            self.wf(),
            self@.index < current_items_m(self@).len(),
        ensures
            r@ == current_items_m(self@)[self@.index as int].item.label,
    {
        let items = self.current_items();
        items[self.index].item.label.as_str()
    }

    /// Moves the selection one row down, wrapping past the end.
    pub fn next(&mut self)
        requires
            old(self).wf(),
        ensures
            final(self).wf(),
            final(self)@ == next_m(old(self)@),
    {
        let n = self.len();
        if n == 0 {
        } else if self.index >= n - 1 {
            self.index = 0;
        } else {
            self.index = self.index + 1;
        }
    }

    /// Moves the selection one row up, wrapping past the start.
    pub fn previous(&mut self)
        requires
            old(self).wf(),
        ensures
            final(self).wf(),
            final(self)@ == previous_m(old(self)@),
    {
        let n = self.len();
        if n == 0 {
        } else if self.index == 0 {
            self.index = n - 1;
        } else {
            self.index = self.index - 1;
        }
    }

    /// Dismisses a live completion list: clears the filter input, the
    /// cache and the selection, and goes inactive.  Idempotent when
    /// already inactive.
    pub fn cancel(&mut self)
        requires
            old(self).wf(),
        ensures
            final(self).wf(),
            final(self)@ == cancel_m(old(self)@),
    {
        if self.status == CompletionStatus::Inactive {
            return ;
        }
        self.status = CompletionStatus::Inactive;
        self.input = String::new();
        self.input_items = Vec::new();
        self.index = 0;
        proof {
            assert(cache_view(self.input_items@) =~= Seq::<(Seq<char>, Seq<ScoredModel>)>::empty());
        }
    }

    /// Rebuilds the displayed list from the cached pool for the present
    /// input: each candidate is rescored against the input and the
    /// survivors are stably sorted.  With an empty input nothing changes.
    pub fn filter_items(&mut self)
        requires
            old(self).wf(),
        ensures
            final(self).wf(),
            final(self)@ == filter_items_m(old(self)@),
    {
        if self.input.as_str().is_empty() {
            return ;
        }
        let mut scored: Vec<ScoredCompletionItem> = Vec::new();
        let pool = self.all_items();
        let ghost pm = svs(pool@);
        let pn = pool.len();
        let mut i: usize = 0;
        while i < pn
            invariant
                i <= pn,
                pn == pool@.len(),
                pm == svs(pool@),
                svs(scored@) == score_pool(pm.take(i as int), self.input@),
            decreases pn - i,
        {
            proof {
                assert(pm.take(i + 1) =~= pm.take(i as int).push(pm[i as int]));
                lemma_score_pool_push(pm.take(i as int), pm[i as int], self.input@);
            }
            match score_one(&pool[i], self.input.as_str()) {
                Some(s) => {
                    scored.push(s);
                    proof {
                        assert(svs(scored@) =~= score_pool(pm.take(i + 1), self.input@));
                    }
                },
                None => {
                    proof {
                        assert(svs(scored@) =~= score_pool(pm.take(i + 1), self.input@));
                    }
                },
            }
            i += 1;
        }
        proof {
            assert(pm.take(pn as int) =~= pm);
        }
        let sorted = sort_scored(scored);
        self.filtered_items = sorted;
    }

    /// Replaces the filter input and resets the selection; while the list
    /// is live the displayed list is refiltered at once.
    pub fn update_input(&mut self, input: String)
        requires
            old(self).wf(),
        ensures
            final(self).wf(),
            final(self)@ == update_input_m(old(self)@, input@),
    {
        self.input = input;
        self.index = 0;
        if self.status == CompletionStatus::Inactive {
            return ;
        }
        self.filter_items();
    }

    /// Takes a server response.  A response is dropped whole unless the
    /// list is live and the response carries the live request id; an
    /// accepted one is cached under the input it answers and folded into
    /// the displayed list.
    pub fn receive(&mut self, request_id: usize, input: String, items: Vec<CompletionItem>)
        requires
            old(self).wf(),
        ensures
            final(self).wf(),
            final(self)@ == receive_m(
                old(self)@,
                request_id,
                input@,
                items@.map_values(|it: CompletionItem| it@),
            ),
    {
        if self.status == CompletionStatus::Inactive || self.request_id != request_id {
            return ;
        }
        let ghost ms = items@.map_values(|it: CompletionItem| it@);
        let mut wrapped: Vec<ScoredCompletionItem> = Vec::new();
        let ni = items.len();
        let mut i: usize = 0;
        while i < ni
            invariant
                i <= ni,
                ni == items@.len(),
                ms == items@.map_values(|it: CompletionItem| it@),
                svs(wrapped@) == wrap_items(ms).take(i as int),
            decreases ni - i,
    {
            proof {
                assert(ms.len() == items@.len());
                assert(wrap_items(ms).len() == ms.len());
                assert(svs(wrapped@).len() == wrapped@.len());
                assert(wrapped@.len() == i);
            }
            let ci = items[i].clone();
            proof {
                assert(ms[i as int] == items@[i as int]@);
                assert(ci@ == ms[i as int]);
            }
            let x = ScoredCompletionItem {
                item: ci,
                index: 0,
                score: 0,
                label_score: 0,
                indices: Vec::new(),
            };
            proof {
                assert(wrap_items(ms)[i as int] == ScoredModel {
                    item: ms[i as int],
                    index: 0,
                    score: 0,
                    label_score: 0,
                    indices: Seq::empty(),
                });
                assert(x@.item == ms[i as int]);
                assert(x@.indices =~= Seq::<usize>::empty());
                assert(x@ =~~= wrap_items(ms)[i as int]);
            }
            wrapped.push(x);
            proof {
                assert(wrapped@[i as int] == x);
                assert(svs(wrapped@)[i as int] == x@);
                assert(svs(wrapped@) =~~= wrap_items(ms).take(i + 1));
            }
            i += 1;
        }
        proof {
            assert(wrap_items(ms).take(ni as int) =~= wrap_items(ms));
        }
        let n = self.input_items.len();
        let mut k: usize = 0;
        loop
            invariant
                k <= n,
                n == self.input_items@.len(),
                forall|j: int| 0 <= j < k ==> self.input_items@[j].0@ != input@,
            ensures
                k <= n,
                n == self.input_items@.len(),
                forall|j: int| 0 <= j < k ==> self.input_items@[j].0@ != input@,
                k < n ==> self.input_items@[k as int].0@ == input@,
            decreases n - k,
        {
            if k >= n {
                break ;
            }
            if self.input_items[k].0 == input {
                break ;
            }
            k += 1;
        }
        let ghost old_cache = cache_view(self.input_items@);
        let ghost key = input@;
        proof {
            lemma_cache_put_at(old_cache, key, wrap_items(ms), k as int);
        }
        if k < n {
            self.input_items[k] = (input, wrapped);
            proof {
                assert(cache_view(self.input_items@) =~~= old_cache.update(
                    k as int,
                    (key, wrap_items(ms)),
                ));
            }
        } else {
            self.input_items.push((input, wrapped));
            proof {
                assert(cache_view(self.input_items@) =~~= old_cache.push((key, wrap_items(ms))));
            }
        }
        self.filter_items();
    }
}

impl Default for CompletionData {
    /// A fresh controller, as `new` makes it.
    fn default() -> (r: Self)
        ensures
            r.wf(),
            r@ == initial_model(),
    {
        Self::new()
    }
}

// ---------------------------------------------------------------------------
// The per-view completion overlay
// ---------------------------------------------------------------------------

/// The rows of a flat scored list that are visible: those whose score is
/// not zero, in order.
pub open spec fn visible(s: Seq<ScoredModel>) -> Seq<ScoredModel>
    decreases s.len(),
{
    if s.len() == 0 {
        Seq::empty()
    } else if s[0].score != 0 {
        seq![s[0]] + visible(s.drop_first())
    } else {
        visible(s.drop_first())
    }
}

proof fn lemma_visible_push(s: Seq<ScoredModel>, x: ScoredModel)
    ensures
        visible(s.push(x)) == (if x.score != 0 {
            visible(s).push(x)
        } else {
            visible(s)
        }),
    decreases s.len(),
{
    if s.len() == 0 {
        assert(s.push(x)[0] == x);
        assert(s.push(x).drop_first() =~= Seq::<ScoredModel>::empty());
        assert(visible(Seq::<ScoredModel>::empty()) == Seq::<ScoredModel>::empty());
        if x.score != 0 {
            assert(visible(s.push(x)) =~= visible(s).push(x));
        }
    } else {
        assert(s.push(x).drop_first() =~= s.drop_first().push(x));
        lemma_visible_push(s.drop_first(), x);
        assert(s.push(x)[0] == s[0]);
        if x.score != 0 {
            assert(visible(s.push(x)) =~= visible(s).push(x));
        } else {
            assert(visible(s.push(x)) =~= visible(s));
        }
    }
}

/// Fresh overlay rows: each server item in order, with a strictly
/// descending negative score so the server order is kept.
pub open spec fn initial_scored(items: Seq<ItemModel>) -> Seq<ScoredModel> {
    Seq::new(
        items.len(),
        |i: int|
            ScoredModel {
                item: items[i],
                index: i as usize,
                score: (-1 - i) as i64,
                label_score: (-1 - i) as i64,
                indices: Seq::empty(),
            },
    )
}

/// The per-view completion overlay (an older sibling of `CompletionData`):
/// a flat scored list in which a zero score marks a row as filtered out.
pub struct CompletionState {
    pub items: Vec<ScoredCompletionItem>,
    pub input: String,
    pub offset: usize,
    pub index: usize,
}

impl CompletionState {
    /// A fresh, empty overlay.
    pub fn new() -> (r: CompletionState)
        ensures
            r.items@.len() == 0,
            r.input@ == Seq::<char>::empty(),
            r.offset == 0,
            r.index == 0,
    {
        CompletionState { items: Vec::new(), input: String::new(), offset: 0, index: 0 }
    }

    /// How many rows are visible.
    pub fn len(&self) -> (r: usize)
        ensures
            r == visible(svs(self.items@)).len(),
    {
        let n = self.items.len();
        let mut count: usize = 0;
        let mut i: usize = 0;
        while i < n
            invariant
                i <= n,
                n == self.items@.len(),
                count == visible(svs(self.items@).take(i as int)).len(),
                count <= i,
            decreases n - i,
        {
            proof {
                assert(svs(self.items@).take(i + 1) =~= svs(self.items@).take(i as int).push(
                    svs(self.items@)[i as int],
                ));
                lemma_visible_push(svs(self.items@).take(i as int), svs(self.items@)[i as int]);
            }
            if self.items[i].score != 0 {
                count += 1;
            }
            i += 1;
        }
        proof {
            assert(svs(self.items@).take(n as int) =~= svs(self.items@));
        }
        count
    }

    /// Whether no row is visible.
    pub fn is_empty(&self) -> (r: bool)
        ensures
            r == (visible(svs(self.items@)).len() == 0),
    {
        self.len() == 0
    }

    /// The visible rows, in order.
    pub fn current_items(&self) -> (r: Vec<ScoredCompletionItem>)
        ensures
            svs(r@) == visible(svs(self.items@)),
    {
        let n = self.items.len();
        let mut out: Vec<ScoredCompletionItem> = Vec::new();
        let mut i: usize = 0;
        while i < n
            invariant
                i <= n,
                n == self.items@.len(),
                svs(out@) == visible(svs(self.items@).take(i as int)),
            decreases n - i,
        {
            proof {
                assert(svs(self.items@).take(i + 1) =~= svs(self.items@).take(i as int).push(
                    svs(self.items@)[i as int],
                ));
                lemma_visible_push(svs(self.items@).take(i as int), svs(self.items@)[i as int]);
            }
            if self.items[i].score != 0 {
                let x = self.items[i].clone();
                out.push(x);
                proof {
                    assert(svs(out@) =~= visible(svs(self.items@).take(i + 1)));
                }
            } else {
                proof {
                    assert(svs(out@) =~= visible(svs(self.items@).take(i + 1)));
                }
            }
            i += 1;
        }
        proof {
            assert(svs(self.items@).take(n as int) =~= svs(self.items@));
        }
        out
    }

    /// Empties the overlay: no rows, no input, offsets and selection reset.
    pub fn clear(&mut self)
        ensures
            final(self).items@.len() == 0,
            final(self).input@ == Seq::<char>::empty(),
            final(self).offset == 0,
            final(self).index == 0,
    {
        self.input = String::new();
        self.items = Vec::new();
        self.offset = 0;
        self.index = 0;
    }

    /// Dismissing the overlay empties it.
    pub fn cancel(&mut self)
        ensures
            final(self).items@.len() == 0,
            final(self).input@ == Seq::<char>::empty(),
            final(self).offset == 0,
            final(self).index == 0,
    {
        self.clear();
    }

    /// Replaces the overlay's rows with the server's items, scored by
    /// arrival order (strictly descending, so the server order stands),
    /// and remembers the input they answer.
    pub fn update(&mut self, input: String, completion_items: Vec<CompletionItem>)
        requires
            completion_items@.len() <= i64::MAX,
        ensures
            svs(final(self).items@) == initial_scored(
                completion_items@.map_values(|it: CompletionItem| it@),
            ),
            final(self).input@ == input@,
            final(self).offset == old(self).offset,
            final(self).index == old(self).index,
    {
        let ghost ms = completion_items@.map_values(|it: CompletionItem| it@);
        let n = completion_items.len();
        let mut items: Vec<ScoredCompletionItem> = Vec::new();
        let mut i: usize = 0;
        while i < n
            invariant
                i <= n,
                n == completion_items@.len(),
                n <= i64::MAX,
                ms == completion_items@.map_values(|it: CompletionItem| it@),
                svs(items@) == initial_scored(ms).take(i as int),
            decreases n - i,
        {
            proof {
                assert(ms.len() == completion_items@.len());
                assert(initial_scored(ms).len() == ms.len());
                assert(svs(items@).len() == items@.len());
                assert(items@.len() == i);
            }
            let score: i64 = -1 - (i as i64);
            let ci = completion_items[i].clone();
            proof {
                assert(ms[i as int] == completion_items@[i as int]@);
                assert(ci@ == ms[i as int]);
            }
            let x = ScoredCompletionItem {
                item: ci,
                index: i,
                score,
                label_score: score,
                indices: Vec::new(),
            };
            proof {
                assert(x@.indices =~= Seq::<usize>::empty());
                assert(x@ =~~= initial_scored(ms)[i as int]);
            }
            items.push(x);
            proof {
                assert(items@[i as int] == x);
                assert(svs(items@)[i as int] == x@);
                assert(svs(items@) =~~= initial_scored(ms).take(i + 1));
            }
            i += 1;
        }
        proof {
            assert(initial_scored(ms).take(n as int) =~= initial_scored(ms));
        }
        self.items = items;
        self.input = input;
    }
}

impl Default for CompletionState {
    /// A fresh overlay, as `new` makes it.
    fn default() -> (r: Self)
        ensures
            r.items@.len() == 0,
            r.input@ == Seq::<char>::empty(),
            r.offset == 0,
            r.index == 0,
    {
        Self::new()
    }
}

// ---------------------------------------------------------------------------
// Laws of the controller
// ---------------------------------------------------------------------------

/// A stale response changes nothing: one carrying any id other than the
/// live one, or arriving while the list is inactive, leaves the whole
/// state — cache and displayed list included — exactly as it was.
pub proof fn lemma_stale_response_ignored(
    m: CompletionModel,
    request_id: usize,
    input: Seq<char>,
    items: Seq<ItemModel>,
)
    requires
        m.status is Inactive || m.request_id != request_id,
    ensures
        receive_m(m, request_id, input, items) == m,
{
}

/// Filtering is never destructive to the cached pool: typing any filter
/// text and then erasing it again shows the cached empty-input candidates
/// again, in server order.
pub proof fn lemma_refilter_restores_pool(
    m: CompletionModel,
    typed: Seq<char>,
    pool: Seq<ScoredModel>,
)
    requires
        cache_get(m.cache, Seq::<char>::empty()) == Some(pool),
    ensures
        current_items_m(update_input_m(update_input_m(m, typed), Seq::<char>::empty())) == pool,
{
}

/// Cancelling is idempotent: a second cancel changes nothing.
pub proof fn lemma_cancel_idempotent(m: CompletionModel)
    ensures
        cancel_m(cancel_m(m)) == cancel_m(m),
{
}

/// Wraparound: from the last row `next` selects the first; from the first
/// row `previous` selects the last; an empty list never moves the
/// selection.
pub proof fn lemma_wraparound(m: CompletionModel)
    requires
        current_items_m(m).len() <= usize::MAX,
    ensures
        current_items_m(m).len() > 0 && m.index == current_items_m(m).len() - 1 ==> next_m(m).index
            == 0,
        current_items_m(m).len() > 0 && m.index == 0 ==> previous_m(m).index == current_items_m(
            m,
        ).len() - 1,
        current_items_m(m).len() == 0 ==> next_m(m).index == m.index && previous_m(m).index
            == m.index,
{
}

/// No element of the sorted list outranks one placed before it.
pub open spec fn sorted_by_rank(s: Seq<ScoredModel>) -> bool {
    forall|i: int, j: int| 0 <= i < j < s.len() ==> !ranks_before(s[j], s[i])
}

proof fn lemma_insert_sorted(s: Seq<ScoredModel>, x: ScoredModel)
    requires
        sorted_by_rank(s),
    ensures
        sorted_by_rank(spec_insert(s, x)),
    decreases s.len(),
{
    if s.len() == 0 {
    } else if ranks_before(x, s[0]) {
        let r = seq![x] + s;
        assert forall|i: int, j: int| 0 <= i < j < r.len() implies !ranks_before(r[j], r[i]) by {
            if i == 0 {
                assert(r[0] == x);
                assert(r[j] == s[j - 1]);
                if ranks_before(s[j - 1], x) {
                    assert(ranks_before(s[j - 1], s[0]));
                    assert(j - 1 == 0 || !ranks_before(s[j - 1], s[0]));
                }
            } else {
                assert(r[i] == s[i - 1] && r[j] == s[j - 1]);
            }
        }
    } else {
        let t = s.drop_first();
        assert forall|i: int, j: int| 0 <= i < j < t.len() implies !ranks_before(t[j], t[i]) by {
            assert(t[i] == s[i + 1] && t[j] == s[j + 1]);
        }
        lemma_insert_sorted(t, x);
        let u = spec_insert(t, x);
        let r = seq![s[0]] + u;
        assert(spec_insert(s, x) == r);
        lemma_insert_contents(t, x);
        assert forall|i: int, j: int| 0 <= i < j < r.len() implies !ranks_before(r[j], r[i]) by {
            if i == 0 {
                assert(r[j] == u[j - 1]);
                if u[j - 1] == x {
                    assert(!ranks_before(x, s[0]));
                } else {
                    let k = choose|k: int| 0 <= k < t.len() && t[k] == u[j - 1];
                    assert(t[k] == s[k + 1]);
                    assert(!ranks_before(s[k + 1], s[0]));
                }
            } else {
                assert(r[i] == u[i - 1] && r[j] == u[j - 1]);
            }
        }
    }
}

/// Every element of an insertion is the inserted one or one of the old
/// ones.
proof fn lemma_insert_contents(s: Seq<ScoredModel>, x: ScoredModel)
    ensures
        spec_insert(s, x).len() == s.len() + 1,
        forall|j: int|
            0 <= j < spec_insert(s, x).len() ==> #[trigger] spec_insert(s, x)[j] == x || exists|
                k: int,
            | 0 <= k < s.len() && s[k] == spec_insert(s, x)[j],
    decreases s.len(),
{
    if s.len() == 0 {
    } else if ranks_before(x, s[0]) {
        assert forall|j: int| 0 <= j < spec_insert(s, x).len() implies #[trigger] spec_insert(
            s,
            x,
        )[j] == x || exists|k: int| 0 <= k < s.len() && s[k] == spec_insert(s, x)[j] by {
            if j > 0 {
                assert(s[j - 1] == spec_insert(s, x)[j]);
            }
        }
    } else {
        let t = s.drop_first();
        lemma_insert_contents(t, x);
        assert forall|j: int| 0 <= j < spec_insert(s, x).len() implies #[trigger] spec_insert(
            s,
            x,
        )[j] == x || exists|k: int| 0 <= k < s.len() && s[k] == spec_insert(s, x)[j] by {
            if j == 0 {
                assert(s[0] == spec_insert(s, x)[0]);
            } else {
                let u = spec_insert(t, x);
                assert(spec_insert(s, x)[j] == u[j - 1]);
                if u[j - 1] != x {
                    let k = choose|k: int| 0 <= k < t.len() && t[k] == u[j - 1];
                    assert(s[k + 1] == spec_insert(s, x)[j]);
                }
            }
        }
    }
}

/// The displayed list is ranked: scores never rise down the list, equal
/// scores are ordered by label score, and full ties put the shorter label
/// first.
pub proof fn lemma_sort_order(s: Seq<ScoredModel>)
    ensures
        sorted_by_rank(spec_sort(s)),
    decreases s.len(),
{
    if s.len() > 0 {
        lemma_sort_order(s.drop_last());
        lemma_insert_sorted(spec_sort(s.drop_last()), s.last());
    }
}

proof fn lemma_insert_multiset(s: Seq<ScoredModel>, x: ScoredModel)
    ensures
        spec_insert(s, x).to_multiset() == s.to_multiset().insert(x),
    decreases s.len(),
{
    broadcast use vstd::seq_lib::group_to_multiset_ensures;
    broadcast use vstd::seq_lib::lemma_multiset_commutative;

    if s.len() == 0 {
        assert(spec_insert(s, x) =~= Seq::<ScoredModel>::empty().push(x));
        assert(Seq::<ScoredModel>::empty().push(x).to_multiset() =~= Seq::<
            ScoredModel,
        >::empty().to_multiset().insert(x));
    } else if ranks_before(x, s[0]) {
        assert(seq![x] + s =~= Seq::<ScoredModel>::empty().push(x) + s);
        assert((Seq::<ScoredModel>::empty().push(x) + s).to_multiset() =~= Seq::<
            ScoredModel,
        >::empty().push(x).to_multiset().add(s.to_multiset()));
        assert(spec_insert(s, x).to_multiset() =~= s.to_multiset().insert(x));
    } else {
        let t = s.drop_first();
        lemma_insert_multiset(t, x);
        assert(spec_insert(s, x) == seq![s[0]] + spec_insert(t, x));
        assert(seq![s[0]] =~= Seq::<ScoredModel>::empty().push(s[0]));
        assert((seq![s[0]] + spec_insert(t, x)).to_multiset() =~= seq![
            s[0],
        ].to_multiset().add(spec_insert(t, x).to_multiset()));
        assert(s =~= seq![s[0]] + t);
        assert(s.to_multiset() =~= seq![s[0]].to_multiset().add(t.to_multiset()));
        assert(spec_insert(s, x).to_multiset() =~= s.to_multiset().insert(x));
    }
}

/// The displayed list is a permutation of the scored candidates: sorting
/// neither drops, adds nor duplicates an entry.
pub proof fn lemma_sort_permutes(s: Seq<ScoredModel>)
    ensures
        spec_sort(s).to_multiset() == s.to_multiset(),
    decreases s.len(),
{
    broadcast use vstd::seq_lib::group_to_multiset_ensures;

    if s.len() > 0 {
        lemma_sort_permutes(s.drop_last());
        lemma_insert_multiset(spec_sort(s.drop_last()), s.last());
        assert(s =~= s.drop_last().push(s.last()));
        assert(s.drop_last().push(s.last()).to_multiset() =~= s.drop_last().to_multiset().insert(
            s.last(),
        ));
    }
}

/// The tie-break law, spelled out pairwise: of two displayed candidates
/// the later never has a higher primary score; with equal primary scores
/// never a higher label score; and with both equal never a shorter label.
pub proof fn lemma_sort_tiebreak(s: Seq<ScoredModel>, i: int, j: int)
    requires
        0 <= i < j < spec_sort(s).len(),
    ensures
        spec_sort(s)[j].score <= spec_sort(s)[i].score,
        spec_sort(s)[j].score == spec_sort(s)[i].score ==> spec_sort(s)[j].label_score <= spec_sort(
            s,
        )[i].label_score,
        spec_sort(s)[j].score == spec_sort(s)[i].score && spec_sort(s)[j].label_score == spec_sort(
            s,
        )[i].label_score ==> spec_sort(s)[i].item.label.len() <= spec_sort(s)[j].item.label.len(),
{
    lemma_sort_order(s);
    assert(!ranks_before(spec_sort(s)[j], spec_sort(s)[i]));
}

} // verus!
