//! LSP-style snippet templates: a recursive-descent parser from template text
//! to a tree of literal text, tab stops and placeholders, and the inverse
//! serialization that reproduces the template.

use vstd::prelude::*;

verus! {

// ---------------------------------------------------------------------------
// Data model
// ---------------------------------------------------------------------------

/// One node of a parsed snippet template: literal text, a placeholder
/// `${n:content}` with default content, or a bare tab stop `$n`.
#[derive(Debug)]
pub enum SnippetElement {
    Text(String),
    PlaceHolder(usize, Vec<SnippetElement>),
    Tabstop(usize),
}

/// A parsed snippet template: the ordered top-level elements.
#[derive(Debug)]
pub struct Snippet {
    pub elements: Vec<SnippetElement>,
}

/// The mathematical shape of a snippet element, with text as `Seq<char>`.
pub enum Elem {
    Text(Seq<char>),
    PlaceHolder(usize, Seq<Elem>),
    Tabstop(usize),
}

/// The model of a single executable element.
pub open spec fn elem_view(e: SnippetElement) -> Elem
    decreases e, 0int,
{
    match e {
        SnippetElement::Text(t) => Elem::Text(t@),
        SnippetElement::PlaceHolder(n, els) => Elem::PlaceHolder(n, elems_view(els@)),
        SnippetElement::Tabstop(n) => Elem::Tabstop(n),
    }
}

/// The model of a sequence of executable elements.
pub open spec fn elems_view(els: Seq<SnippetElement>) -> Seq<Elem>
    decreases els, 1int,
{
    if els.len() == 0 {
        Seq::empty()
    } else {
        seq![elem_view(els[0])] + elems_view(els.drop_first())
    }
}

impl View for SnippetElement {
    type V = Elem;

    open spec fn view(&self) -> Elem {
        elem_view(*self)
    }
}

impl View for Snippet {
    type V = Seq<Elem>;

    open spec fn view(&self) -> Seq<Elem> {
        elems_view(self.elements@)
    }
}

proof fn lemma_elems_view_push(els: Seq<SnippetElement>, e: SnippetElement)
    ensures
        elems_view(els.push(e)) == elems_view(els).push(elem_view(e)),
    decreases els.len(),
{
    if els.len() == 0 {
        assert(els.push(e)[0] == e);
        assert(els.push(e).drop_first() =~= Seq::<SnippetElement>::empty());
        assert(elems_view(Seq::<SnippetElement>::empty()) == Seq::<Elem>::empty());
        assert(elems_view(els.push(e)) =~= seq![elem_view(e)]);
        assert(elems_view(els).push(elem_view(e)) =~= seq![elem_view(e)]);
    } else {
        assert(els.push(e).drop_first() =~= els.drop_first().push(e));
        lemma_elems_view_push(els.drop_first(), e);
        assert(els.push(e)[0] == els[0]);
        assert(elems_view(els.push(e)) =~= elems_view(els).push(elem_view(e)));
    }
}

// ---------------------------------------------------------------------------
// The grammar, as spec functions over the template's characters
// ---------------------------------------------------------------------------

pub open spec fn is_digit(c: char) -> bool {
    '0' <= c && c <= '9'
}

pub open spec fn digit_of(c: char) -> nat {
    (c as nat - '0' as nat) as nat
}

/// Length of the maximal run of decimal digits starting at `pos`.
pub open spec fn digit_run(s: Seq<char>, pos: int) -> nat
    decreases s.len() - pos,
{
    if pos < 0 || pos >= s.len() {
        0
    } else if is_digit(s[pos]) {
        1 + digit_run(s, pos + 1)
    } else {
        0
    }
}

/// Value of the `k` digits starting at `pos`, read as a decimal number.
pub open spec fn digits_val(s: Seq<char>, pos: int, k: nat) -> nat
    decreases k,
{
    if k == 0 {
        0
    } else {
        digits_val(s, pos, (k - 1) as nat) * 10 + digit_of(s[pos + k - 1])
    }
}

/// A terminator stops a literal-text run.  A backslash and a dollar sign
/// always do; a closing brace only inside a placeholder's content.
pub open spec fn is_term(c: char, inner: bool) -> bool {
    c == '$' || c == '\\' || (inner && c == '}')
}

/// The characters a backslash may escape.  At the top level the closing brace
/// is a loose escape: `\}` is unescaped even though a bare `}` is plain text.
pub open spec fn is_escapable(c: char) -> bool {
    c == '$' || c == '\\' || c == '}'
}

/// A tab stop `$<digits>` or `${<digits>}` at `pos`, with its end position.
/// A digit run whose value does not fit in `usize` is not a tab stop.
pub open spec fn spec_tabstop_at(s: Seq<char>, pos: int) -> Option<(Elem, int)> {
    if 0 <= pos && pos < s.len() && s[pos] == '$' {
        if pos + 1 < s.len() && is_digit(s[pos + 1]) {
            let d = digit_run(s, pos + 1);
            let v = digits_val(s, pos + 1, d);
            if v <= usize::MAX {
                Some((Elem::Tabstop(v as usize), pos + 1 + d))
            } else {
                None
            }
        } else if pos + 1 < s.len() && s[pos + 1] == '{' && pos + 2 < s.len() && is_digit(
            s[pos + 2],
        ) {
            let d = digit_run(s, pos + 2);
            if pos + 2 + d < s.len() && s[pos + 2 + d] == '}' {
                let v = digits_val(s, pos + 2, d);
                if v <= usize::MAX {
                    Some((Elem::Tabstop(v as usize), pos + 3 + d))
                } else {
                    None
                }
            } else {
                None
            }
        } else {
            None
        }
    } else {
        None
    }
}

/// Position of the first `}` at or after `from`, provided no newline comes
/// first: the lookahead that decides whether `${n:` opens a placeholder.
pub open spec fn spec_first_close(s: Seq<char>, from: int) -> Option<int>
    decreases s.len() - from,
{
    if from < 0 || from >= s.len() {
        None
    } else if s[from] == '}' {
        Some(from)
    } else if s[from] == '\n' {
        None
    } else {
        spec_first_close(s, from + 1)
    }
}

/// A placeholder `${<digits>:<content>}` at `pos`.  Empty content stands for
/// a single empty text child, so the tab stop survives serialization.
/// Nonempty content is parsed recursively; the element ends one past where
/// that recursive parse stops.
pub open spec fn spec_placeholder_at(s: Seq<char>, pos: int) -> Option<(Elem, int)>
    decreases s.len() - pos, 0int,
{
    if 0 <= pos && pos + 1 < s.len() && s[pos] == '$' && s[pos + 1] == '{' && pos + 2 < s.len()
        && is_digit(s[pos + 2]) {
        let d = digit_run(s, pos + 2);
        if pos + 2 + d < s.len() && s[pos + 2 + d] == ':' {
            let v = digits_val(s, pos + 2, d);
            if v > usize::MAX {
                None
            } else {
                let cstart = pos + 3 + d;
                match spec_first_close(s, cstart) {
                    None => None,
                    Some(k) => {
                        if k == cstart {
                            Some(
                                (
                                    Elem::PlaceHolder(
                                        v as usize,
                                        seq![Elem::Text(Seq::empty())],
                                    ),
                                    k + 1,
                                ),
                            )
                        } else {
                            let r = spec_elements(s, cstart, true);
                            let end = if r.1 < s.len() {
                                r.1 + 1
                            } else {
                                s.len() as int
                            };
                            Some((Elem::PlaceHolder(v as usize, r.0), end))
                        }
                    },
                }
            }
        } else {
            None
        }
    } else {
        None
    }
}

/// The literal-text run starting at `pos`: the unescaped characters consumed
/// and the position where the run stops.
pub open spec fn spec_text_run(s: Seq<char>, pos: int, inner: bool) -> (Seq<char>, int)
    decreases s.len() - pos,
{
    if pos < 0 || pos >= s.len() {
        (Seq::empty(), pos)
    } else if pos + 1 < s.len() && s[pos] == '\\' && is_escapable(s[pos + 1]) {
        let r = spec_text_run(s, pos + 2, inner);
        (seq![s[pos + 1]] + r.0, r.1)
    } else if is_term(s[pos], inner) {
        (Seq::empty(), pos)
    } else {
        let r = spec_text_run(s, pos + 1, inner);
        (seq![s[pos]] + r.0, r.1)
    }
}

pub open spec fn spec_text_at(s: Seq<char>, pos: int, inner: bool) -> Option<(Elem, int)> {
    let r = spec_text_run(s, pos, inner);
    if r.0.len() == 0 {
        None
    } else {
        Some((Elem::Text(r.0), r.1))
    }
}

/// The element recognized at `pos`: a tab stop, else a placeholder, else a
/// literal-text run, in that priority order.
pub open spec fn spec_element_at(s: Seq<char>, pos: int, inner: bool) -> Option<(Elem, int)>
    decreases s.len() - pos, 1int,
{
    if spec_tabstop_at(s, pos) is Some {
        spec_tabstop_at(s, pos)
    } else if spec_placeholder_at(s, pos) is Some {
        spec_placeholder_at(s, pos)
    } else {
        spec_text_at(s, pos, inner)
    }
}

/// The elements recognized from `pos` on, and the position where parsing
/// stops: at the template's end, or at the first position where no element is
/// recognized.  Anything left there is dropped.
pub open spec fn spec_elements(s: Seq<char>, pos: int, inner: bool) -> (Seq<Elem>, int)
    decreases s.len() - pos, 2int,
{
    if pos < 0 || pos >= s.len() {
        (Seq::empty(), pos)
    } else {
        match spec_element_at(s, pos, inner) {
            None => (Seq::empty(), pos),
            Some((el, end)) => {
                if pos < end <= s.len() {
                    let r = spec_elements(s, end, inner);
                    (seq![el] + r.0, r.1)
                } else {
                    // never reached: a recognized element always advances and
                    // stays within the template
                    (seq![el], end)
                }
            },
        }
    }
}

/// What parsing a whole template yields.
pub open spec fn spec_parse(s: Seq<char>) -> Seq<Elem> {
    spec_elements(s, 0, false).0
}

// ---------------------------------------------------------------------------
// Serialization and traversal, as spec functions
// ---------------------------------------------------------------------------

pub open spec fn digit_char(d: nat) -> char {
    if d == 0 {
        '0'
    } else if d == 1 {
        '1'
    } else if d == 2 {
        '2'
    } else if d == 3 {
        '3'
    } else if d == 4 {
        '4'
    } else if d == 5 {
        '5'
    } else if d == 6 {
        '6'
    } else if d == 7 {
        '7'
    } else if d == 8 {
        '8'
    } else {
        '9'
    }
}

/// The decimal digits of `n`, most significant first.
pub open spec fn dec_digits(n: nat) -> Seq<char>
    decreases n,
{
    if n < 10 {
        seq![digit_char(n)]
    } else {
        dec_digits(n / 10).push(digit_char(n % 10))
    }
}

/// The template text an element serializes to.
pub open spec fn elem_str(e: Elem) -> Seq<char>
    decreases e, 0int,
{
    match e {
        Elem::Text(t) => t,
        Elem::Tabstop(n) => seq!['$'] + dec_digits(n as nat),
        Elem::PlaceHolder(n, children) => seq!['$', '{'] + dec_digits(n as nat) + seq![':']
            + elems_str(children) + seq!['}'],
    }
}

pub open spec fn elems_str(els: Seq<Elem>) -> Seq<char>
    decreases els, 1int,
{
    if els.len() == 0 {
        Seq::empty()
    } else {
        elem_str(els[0]) + elems_str(els.drop_first())
    }
}

/// The literal text reachable inside an element; tab stops contribute none.
pub open spec fn elem_text(e: Elem) -> Seq<char>
    decreases e, 0int,
{
    match e {
        Elem::Text(t) => t,
        Elem::Tabstop(_) => Seq::empty(),
        Elem::PlaceHolder(_, children) => elems_text(children),
    }
}

pub open spec fn elems_text(els: Seq<Elem>) -> Seq<char>
    decreases els, 1int,
{
    if els.len() == 0 {
        Seq::empty()
    } else {
        elem_text(els[0]) + elems_text(els.drop_first())
    }
}

/// The cursor stops inside an element placed at offset `pos` of the flattened
/// text: each stop's index with its span.  A placeholder's own entry comes
/// before those of its children.
pub open spec fn elem_tabs(e: Elem, pos: int) -> Seq<(usize, (int, int))>
    decreases e, 0int,
{
    match e {
        Elem::Text(_) => Seq::empty(),
        Elem::Tabstop(n) => seq![(n, (pos, pos))],
        Elem::PlaceHolder(n, children) => seq![(n, (pos, pos + elems_text(children).len()))]
            + elems_tabs(children, pos),
    }
}

pub open spec fn elems_tabs(els: Seq<Elem>, pos: int) -> Seq<(usize, (int, int))>
    decreases els, 1int,
{
    if els.len() == 0 {
        Seq::empty()
    } else {
        elem_tabs(els[0], pos) + elems_tabs(els.drop_first(), pos + elem_text(els[0]).len())
    }
}

// ---------------------------------------------------------------------------
// Unfolding lemmas for the sequence-level spec functions
// ---------------------------------------------------------------------------

proof fn lemma_elems_view_index(els: Seq<SnippetElement>)
    ensures
        elems_view(els).len() == els.len(),
        forall|i: int| 0 <= i < els.len() ==> elems_view(els)[i] == elem_view(els[i]),
    decreases els.len(),
{
    if els.len() > 0 {
        lemma_elems_view_index(els.drop_first());
        assert forall|i: int| 0 <= i < els.len() implies elems_view(els)[i] == elem_view(
            els[i],
        ) by {
            if i > 0 {
                assert(elems_view(els)[i] == elems_view(els.drop_first())[i - 1]);
                assert(els.drop_first()[i - 1] == els[i]);
            }
        }
    }
}

proof fn lemma_elems_str_push(els: Seq<Elem>, e: Elem)
    ensures
        elems_str(els.push(e)) == elems_str(els) + elem_str(e),
    decreases els.len(),
{
    if els.len() == 0 {
        assert(els.push(e)[0] == e);
        assert(els.push(e).drop_first() =~= Seq::<Elem>::empty());
        assert(elems_str(Seq::<Elem>::empty()) == Seq::<char>::empty());
        assert(elems_str(els.push(e)) =~= elems_str(els) + elem_str(e));
    } else {
        assert(els.push(e).drop_first() =~= els.drop_first().push(e));
        lemma_elems_str_push(els.drop_first(), e);
        assert(els.push(e)[0] == els[0]);
        assert(elems_str(els.push(e)) =~= elems_str(els) + elem_str(e));
    }
}

proof fn lemma_elems_text_push(els: Seq<Elem>, e: Elem)
    ensures
        elems_text(els.push(e)) == elems_text(els) + elem_text(e),
    decreases els.len(),
{
    if els.len() == 0 {
        assert(els.push(e)[0] == e);
        assert(els.push(e).drop_first() =~= Seq::<Elem>::empty());
        assert(elems_text(Seq::<Elem>::empty()) == Seq::<char>::empty());
        assert(elems_text(els.push(e)) =~= elems_text(els) + elem_text(e));
    } else {
        assert(els.push(e).drop_first() =~= els.drop_first().push(e));
        lemma_elems_text_push(els.drop_first(), e);
        assert(els.push(e)[0] == els[0]);
        assert(elems_text(els.push(e)) =~= elems_text(els) + elem_text(e));
    }
}

proof fn lemma_elems_tabs_push(els: Seq<Elem>, e: Elem, pos: int)
    ensures
        elems_tabs(els.push(e), pos) == elems_tabs(els, pos) + elem_tabs(
            e,
            pos + elems_text(els).len(),
        ),
    decreases els.len(),
{
    if els.len() == 0 {
        assert(els.push(e)[0] == e);
        assert(els.push(e).drop_first() =~= Seq::<Elem>::empty());
        assert(elems_tabs(Seq::<Elem>::empty(), pos + elem_text(e).len()) == Seq::<(
            usize,
            (int, int),
        )>::empty());
        assert(elems_text(Seq::<Elem>::empty()) == Seq::<char>::empty());
        assert(elems_tabs(els.push(e), pos) =~= elems_tabs(els, pos) + elem_tabs(
            e,
            pos + elems_text(els).len(),
        ));
    } else {
        assert(els.push(e).drop_first() =~= els.drop_first().push(e));
        lemma_elems_tabs_push(els.drop_first(), e, pos + elem_text(els[0]).len());
        assert(els.push(e)[0] == els[0]);
        assert(elems_text(els).len() == elem_text(els[0]).len() + elems_text(
            els.drop_first(),
        ).len());
        assert(elems_tabs(els.push(e), pos) =~= elems_tabs(els, pos) + elem_tabs(
            e,
            pos + elems_text(els).len(),
        ));
    }
}

// ---------------------------------------------------------------------------
// The executable parser
// ---------------------------------------------------------------------------

/// Relies on std's `String::push`: appends the character to the string.
#[verifier::external_body]
fn push_char(s: &mut String, c: char)
    ensures
        final(s)@ == old(s)@.push(c),
{
    s.push(c);
}

/// The template's characters, in order.
pub(crate) fn chars_of(s: &str) -> (r: Vec<char>)
    ensures
        r@ == s@,
{
    let n = s.unicode_len();
    let mut v: Vec<char> = Vec::new();
    let mut i: usize = 0;
    while i < n
        invariant
            i <= n,
            n == s@.len(),
            v@ == s@.subrange(0, i as int),
        decreases n - i,
    {
        v.push(s.get_char(i));
        proof {
            assert(v@ =~= s@.subrange(0, i + 1));
        }
        i += 1;
    }
    proof {
        assert(v@ =~= s@);
    }
    v
}

fn is_digit_char(c: char) -> (r: bool)
    ensures
        r == is_digit(c),
{
    '0' <= c && c <= '9'
}

/// Longer digit runs never read as smaller numbers.
proof fn lemma_digits_val_monotone(s: Seq<char>, pos: int, k1: nat, k2: nat)
    requires
        k1 <= k2,
    ensures
        digits_val(s, pos, k1) <= digits_val(s, pos, k2),
    decreases k2,
{
    if k1 < k2 {
        lemma_digits_val_monotone(s, pos, k1, (k2 - 1) as nat);
        assert(digits_val(s, pos, (k2 - 1) as nat) * 10 >= digits_val(s, pos, (k2 - 1) as nat));
    }
}

/// The maximal digit run at `pos`, with its decimal value when that value
/// fits in `usize`.
fn scan_digits(s: &Vec<char>, pos: usize) -> (r: (usize, Option<usize>))
    requires
        pos <= s@.len(),
    ensures
        ({
            let d = digit_run(s@, pos as int);
            &&& r.0 == d
            &&& pos + d <= s@.len()
            &&& (r.1 is Some <==> digits_val(s@, pos as int, d) <= usize::MAX)
            &&& (r.1 matches Some(v) ==> v == digits_val(s@, pos as int, d))
        }),
{
    let n = s.len();
    let mut i = pos;
    let mut val: Option<usize> = Some(0);
    loop
        invariant
            pos <= i <= n,
            n == s@.len(),
            digit_run(s@, pos as int) == i - pos + digit_run(s@, i as int),
            (val matches Some(v) ==> v == digits_val(s@, pos as int, (i - pos) as nat)),
            (val is None ==> digits_val(s@, pos as int, (i - pos) as nat) > usize::MAX),
        ensures
            pos <= i <= n,
            digit_run(s@, pos as int) == i - pos,
            (val matches Some(v) ==> v == digits_val(s@, pos as int, (i - pos) as nat)),
            (val is None ==> digits_val(s@, pos as int, (i - pos) as nat) > usize::MAX),
        decreases n - i,
    {
        if i >= n {
            break ;
        }
        let c = s[i];
        if !is_digit_char(c) {
            break ;
        }
        let d = (c as u32 - '0' as u32) as usize;
        proof {
            let ghost k = (i + 1 - pos) as nat;
            assert(digits_val(s@, pos as int, k) == digits_val(s@, pos as int, (k - 1) as nat) * 10 + digit_of(
                s@[pos + k - 1],
            ));
            assert((k - 1) as nat == (i - pos) as nat);
            assert(pos + k - 1 == i as int);
            assert(digits_val(s@, pos as int, (i + 1 - pos) as nat) == digits_val(
                s@,
                pos as int,
                (i - pos) as nat,
            ) * 10 + digit_of(s@[i as int]));
        }
        val = match val {
            Some(v) => {
                match v.checked_mul(10) {
                    Some(m) => m.checked_add(d),
                    None => None,
                }
            },
            None => {
                proof {
                    lemma_digits_val_monotone(s@, pos as int, (i - pos) as nat, (i + 1 - pos) as nat);
                }
                None
            },
        };
        i += 1;
    }
    (i - pos, val)
}

/// Looks for the first `}` at or after `from`, stopping at a newline.
fn first_close(s: &Vec<char>, from: usize) -> (r: Option<usize>)
    requires
        from <= s@.len(),
    ensures
        (r is Some) == (spec_first_close(s@, from as int) is Some),
        r matches Some(k) ==> spec_first_close(s@, from as int) == Some(k as int) && from <= k
            < s@.len(),
{
    let mut i = from;
    loop
        invariant
            from <= i <= s@.len(),
            spec_first_close(s@, from as int) == spec_first_close(s@, i as int),
        decreases s@.len() - i,
    {
        if i >= s.len() {
            return None;
        }
        let c = s[i];
        if c == '}' {
            return Some(i);
        }
        if c == '\n' {
            return None;
        }
        i += 1;
    }
}

/// Tries to read a tab stop at `pos`.
fn extract_tabstop(s: &Vec<char>, pos: usize) -> (r: Option<(SnippetElement, usize)>)
    requires
        pos < s@.len(),
    ensures
        (r is Some) == (spec_tabstop_at(s@, pos as int) is Some),
        r matches Some(p) ==> spec_tabstop_at(s@, pos as int) == Some((p.0@, p.1 as int)) && pos
            < p.1 <= s@.len(),
{
    let n = s.len();
    if s[pos] != '$' {
        return None;
    }
    if pos + 1 < n && is_digit_char(s[pos + 1]) {
        let (d, val) = scan_digits(s, pos + 1);
        proof {
            assert(d >= 1);
        }
        match val {
            Some(v) => Some((SnippetElement::Tabstop(v), pos + 1 + d)),
            None => None,
        }
    } else if pos + 1 < n && s[pos + 1] == '{' && pos + 2 < n && is_digit_char(s[pos + 2]) {
        let (d, val) = scan_digits(s, pos + 2);
        if pos + 2 + d < n && s[pos + 2 + d] == '}' {
            match val {
                Some(v) => Some((SnippetElement::Tabstop(v), pos + 3 + d)),
                None => None,
            }
        } else {
            None
        }
    } else {
        None
    }
}

/// Tries to read a literal-text run at `pos`.
fn extract_text(s: &Vec<char>, pos: usize, inner: bool) -> (r: Option<(SnippetElement, usize)>)
    requires
        pos <= s@.len(),
    ensures
        (r is Some) == (spec_text_at(s@, pos as int, inner) is Some),
        r matches Some(p) ==> spec_text_at(s@, pos as int, inner) == Some((p.0@, p.1 as int))
            && pos < p.1 <= s@.len(),
{
    let n = s.len();
    let mut out = String::new();
    let mut i = pos;
    loop
        invariant
            pos <= i <= n,
            n == s@.len(),
            i == pos ==> out@.len() == 0,
            spec_text_run(s@, pos as int, inner).0 == out@ + spec_text_run(s@, i as int, inner).0,
            spec_text_run(s@, pos as int, inner).1 == spec_text_run(s@, i as int, inner).1,
        ensures
            pos <= i <= n,
            i == pos ==> out@.len() == 0,
            spec_text_run(s@, pos as int, inner).0 == out@,
            spec_text_run(s@, pos as int, inner).1 == i,
        decreases n - i,
    {
        if i >= n {
            proof {
                assert(out@ + spec_text_run(s@, i as int, inner).0 =~= out@);
            }
            break ;
        }
        let c = s[i];
        if i + 1 < n && c == '\\' && (s[i + 1] == '$' || s[i + 1] == '\\' || s[i + 1] == '}') {
            push_char(&mut out, s[i + 1]);
            proof {
                assert(out@ + spec_text_run(s@, i + 2, inner).0 =~= out@.drop_last() + (seq![
                    s@[i + 1],
                ] + spec_text_run(s@, i + 2, inner).0));
            }
            i += 2;
        } else if c == '$' || c == '\\' || (inner && c == '}') {
            proof {
                assert(out@ + spec_text_run(s@, i as int, inner).0 =~= out@);
            }
            break ;
        } else {
            push_char(&mut out, c);
            proof {
                assert(out@ + spec_text_run(s@, i + 1, inner).0 =~= out@.drop_last() + (seq![
                    s@[i as int],
                ] + spec_text_run(s@, i + 1, inner).0));
            }
            i += 1;
        }
    }
    if out.as_str().unicode_len() == 0 {
        None
    } else {
        Some((SnippetElement::Text(out), i))
    }
}

/// Tries to read a placeholder at `pos`.
fn extract_placeholder(s: &Vec<char>, pos: usize) -> (r: Option<(SnippetElement, usize)>)
    requires
        pos < s@.len(),
    ensures
        (r is Some) == (spec_placeholder_at(s@, pos as int) is Some),
        r matches Some(p) ==> spec_placeholder_at(s@, pos as int) == Some((p.0@, p.1 as int))
            && pos < p.1 <= s@.len(),
    decreases s@.len() - pos, 0int,
{
    let n = s.len();
    if !(pos + 1 < n && s[pos] == '$' && s[pos + 1] == '{' && pos + 2 < n && is_digit_char(
        s[pos + 2],
    )) {
        return None;
    }
    let (d, val) = scan_digits(s, pos + 2);
    proof {
        assert(d >= 1);
    }
    if !(pos + 2 + d < n && s[pos + 2 + d] == ':') {
        return None;
    }
    let tab = match val {
        Some(v) => v,
        None => {
            return None;
        },
    };
    let cstart = pos + 3 + d;
    let k = match first_close(s, cstart) {
        Some(k) => k,
        None => {
            return None;
        },
    };
    if k == cstart {
        let mut children: Vec<SnippetElement> = Vec::new();
        children.push(SnippetElement::Text(String::new()));
        proof {
            assert(children@.len() == 1);
            assert(children@.drop_first() =~= Seq::<SnippetElement>::empty());
            assert(elems_view(Seq::<SnippetElement>::empty()) == Seq::<Elem>::empty());
            assert(elems_view(children@) =~= seq![elem_view(children@[0])]);
            assert(elems_view(children@) =~= seq![Elem::Text(Seq::<char>::empty())]);
        }
        Some((SnippetElement::PlaceHolder(tab, children), k + 1))
    } else {
        let r = extract_elements(s, cstart, true);
        let end = if r.1 < n {
            r.1 + 1
        } else {
            n
        };
        Some((SnippetElement::PlaceHolder(tab, r.0), end))
    }
}

/// Reads elements from `pos` until none is recognized or the input ends.
fn extract_elements(s: &Vec<char>, pos: usize, inner: bool) -> (r: (Vec<SnippetElement>, usize))
    requires
        pos <= s@.len(),
    ensures
        ({
            let m = spec_elements(s@, pos as int, inner);
            &&& elems_view(r.0@) == m.0
            &&& r.1 == m.1
            &&& pos <= r.1 <= s@.len()
        }),
    decreases s@.len() - pos, 1int,
{
    let n = s.len();
    let mut acc: Vec<SnippetElement> = Vec::new();
    let mut i = pos;
    loop
        invariant
            pos <= i <= n,
            n == s@.len(),
            spec_elements(s@, pos as int, inner).0 == elems_view(acc@) + spec_elements(
                s@,
                i as int,
                inner,
            ).0,
            spec_elements(s@, pos as int, inner).1 == spec_elements(s@, i as int, inner).1,
        ensures
            pos <= i <= n,
            spec_elements(s@, pos as int, inner).0 == elems_view(acc@),
            spec_elements(s@, pos as int, inner).1 == i,
        decreases n - i,
    {
        if i >= n {
            proof {
                assert(elems_view(acc@) + spec_elements(s@, i as int, inner).0 =~= elems_view(
                    acc@,
                ));
            }
            break ;
        }
        let el_opt = match extract_tabstop(s, i) {
            Some(p) => Some(p),
            None => match extract_placeholder(s, i) {
                Some(p) => Some(p),
                None => extract_text(s, i, inner),
            },
        };
        match el_opt {
            None => {
                proof {
                    assert(spec_element_at(s@, i as int, inner) is None);
                    assert(elems_view(acc@) + spec_elements(s@, i as int, inner).0 =~= elems_view(
                        acc@,
                    ));
                }
                break ;
            },
            Some((el, end)) => {
                proof {
                    assert(spec_element_at(s@, i as int, inner) == Some((el@, end as int)));
                    assert(spec_elements(s@, i as int, inner).0 == seq![el@] + spec_elements(
                        s@,
                        end as int,
                        inner,
                    ).0);
                    lemma_elems_view_push(acc@, el);
                    assert(elems_view(acc@) + (seq![el@] + spec_elements(s@, end as int, inner).0)
                        =~= elems_view(acc@.push(el)) + spec_elements(s@, end as int, inner).0);
                }
                acc.push(el);
                i = end;
            },
        }
    }
    (acc, i)
}

impl Snippet {
    /// Parses a template.  Parsing is total: elements are consumed while the
    /// grammar matches, and an unrecognized tail is silently dropped.
    pub fn parse(s: &str) -> (r: Snippet)
        ensures
            r@ == spec_parse(s@),
    {
        let chars = chars_of(s);
        let r = extract_elements(&chars, 0, false);
        Snippet { elements: r.0 }
    }
}

// ---------------------------------------------------------------------------
// Serialization and traversal, executable
// ---------------------------------------------------------------------------

fn digit_char_of(d: usize) -> (r: char)
    requires
        d < 10,
    ensures
        r == digit_char(d as nat),
{
    match d {
        0 => '0',
        1 => '1',
        2 => '2',
        3 => '3',
        4 => '4',
        5 => '5',
        6 => '6',
        7 => '7',
        8 => '8',
        _ => '9',
    }
}

/// Appends the decimal digits of `v` to `out`.
fn push_digits(out: &mut String, v: usize)
    ensures
        final(out)@ == old(out)@ + dec_digits(v as nat),
{
    let mut ds: Vec<char> = Vec::new();
    let mut m = v;
    loop
        invariant_except_break
            ds@.len() == 0 ==> m == v,
            ds@.len() > 0 ==> m > 0 && dec_digits(v as nat) == dec_digits(m as nat)
                + ds@.reverse(),
        ensures
            dec_digits(v as nat) == ds@.reverse(),
            ds@.len() >= 1,
        decreases m,
    {
        let ghost old_ds = ds@;
        let d = m % 10;
        let next = m / 10;
        ds.push(digit_char_of(d));
        proof {
            assert(ds@.reverse() =~= seq![digit_char(d as nat)] + old_ds.reverse());
            if m < 10 {
                assert(dec_digits(m as nat) == seq![digit_char(m as nat)]);
                if old_ds.len() == 0 {
                    assert(dec_digits(v as nat) =~= ds@.reverse());
                } else {
                    assert(dec_digits(v as nat) =~= ds@.reverse());
                }
            } else {
                assert(dec_digits(m as nat) == dec_digits(next as nat).push(
                    digit_char((m % 10) as nat),
                ));
                if old_ds.len() == 0 {
                    assert(dec_digits(v as nat) =~= dec_digits(next as nat) + ds@.reverse());
                } else {
                    assert(dec_digits(v as nat) == dec_digits(m as nat) + old_ds.reverse());
                    assert(dec_digits(next as nat).push(digit_char(d as nat)) + old_ds.reverse()
                        =~= dec_digits(next as nat) + ds@.reverse());
                }
            }
        }
        m = next;
        if m == 0 {
            break ;
        }
    }
    let mut j = ds.len();
    while j > 0
        invariant
            j <= ds@.len(),
            dec_digits(v as nat) == ds@.reverse(),
            out@ == old(out)@ + ds@.reverse().take(ds@.len() - j),
        decreases j,
    {
        j = j - 1;
        push_char(out, ds[j]);
        proof {
            assert(ds@.reverse()[ds@.len() - j - 1] == ds@[j as int]);
            assert(out@ =~= old(out)@ + ds@.reverse().take(ds@.len() - j));
        }
    }
    proof {
        assert(ds@.reverse().take(ds@.len() as int) =~= ds@.reverse());
    }
}

impl SnippetElement {
    /// The exact template text this element serializes to.
    pub fn to_string(&self) -> (r: String)
        ensures
            r@ == elem_str(self@),
        decreases self,
    {
        match self {
            SnippetElement::Text(t) => t.clone(),
            SnippetElement::Tabstop(n) => {
                let mut out = String::new();
                push_char(&mut out, '$');
                push_digits(&mut out, *n);
                proof {
                    assert(out@ =~= seq!['$'] + dec_digits(*n as nat));
                }
                out
            },
            SnippetElement::PlaceHolder(n, els) => {
                let ghost cv = elems_view(els@);
                let mut out = String::new();
                push_char(&mut out, '$');
                push_char(&mut out, '{');
                push_digits(&mut out, *n);
                push_char(&mut out, ':');
                let ghost head = out@;
                proof {
                    lemma_elems_view_index(els@);
                }
                let mut i: usize = 0;
                while i < els.len()
                    invariant
                        i <= els@.len(),
                        cv == elems_view(els@),
                        cv.len() == els@.len(),
                        forall|k: int| 0 <= k < els@.len() ==> cv[k] == elem_view(els@[k]),
                        out@ == head + elems_str(cv.take(i as int)),
                        decreases_to!(self => *els),
                    decreases els@.len() - i,
                {
                    proof {
                        assert(decreases_to!(*els => els@[i as int]));
                    }
                    let cs = els[i].to_string();
                    out.append(cs.as_str());
                    proof {
                        lemma_elems_str_push(cv.take(i as int), cv[i as int]);
                        assert(cv.take(i + 1) =~= cv.take(i as int).push(cv[i as int]));
                        assert(out@ =~= head + elems_str(cv.take(i + 1)));
                    }
                    i += 1;
                }
                push_char(&mut out, '}');
                proof {
                    assert(cv.take(cv.len() as int) =~= cv);
                    assert(out@ =~= seq!['$', '{'] + dec_digits(*n as nat) + seq![':']
                        + elems_str(cv) + seq!['}']);
                }
                out
            },
        }
    }

    /// The literal text reachable inside this element.
    pub fn text(&self) -> (r: String)
        ensures
            r@ == elem_text(self@),
        decreases self,
    {
        match self {
            SnippetElement::Text(t) => t.clone(),
            SnippetElement::Tabstop(_) => String::new(),
            SnippetElement::PlaceHolder(_, els) => {
                let ghost cv = elems_view(els@);
                proof {
                    lemma_elems_view_index(els@);
                }
                let mut out = String::new();
                let mut i: usize = 0;
                while i < els.len()
                    invariant
                        i <= els@.len(),
                        cv == elems_view(els@),
                        cv.len() == els@.len(),
                        forall|k: int| 0 <= k < els@.len() ==> cv[k] == elem_view(els@[k]),
                        out@ == elems_text(cv.take(i as int)),
                        decreases_to!(self => *els),
                    decreases els@.len() - i,
                {
                    proof {
                        assert(decreases_to!(*els => els@[i as int]));
                    }
                    let cs = els[i].text();
                    out.append(cs.as_str());
                    proof {
                        lemma_elems_text_push(cv.take(i as int), cv[i as int]);
                        assert(cv.take(i + 1) =~= cv.take(i as int).push(cv[i as int]));
                        assert(out@ =~= elems_text(cv.take(i + 1)));
                    }
                    i += 1;
                }
                proof {
                    assert(cv.take(cv.len() as int) =~= cv);
                }
                out
            },
        }
    }

    /// The length of this element's flattened literal text.
    pub fn len(&self) -> (r: usize)
        ensures
            r == elem_text(self@).len(),
    {
        self.text().as_str().unicode_len()
    }

    /// Whether this element's flattened literal text is empty.
    pub fn is_empty(&self) -> (r: bool)
        ensures
            r == (elem_text(self@).len() == 0),
    {
        self.len() == 0
    }
}

// ---------------------------------------------------------------------------
// Well-formed trees, and the round-trip law
// ---------------------------------------------------------------------------

/// Literal text that serializes back to itself: nonempty, free of the
/// metacharacters `$` and `\`, and inside a placeholder also free of `}`.
pub open spec fn wf_text_seq(t: Seq<char>, inner: bool) -> bool {
    &&& t.len() > 0
    &&& forall|i: int| 0 <= i < t.len() ==> t[i] != '$' && t[i] != '\\' && !(inner && t[i] == '}')
}

/// Every newline in a placeholder's serialized content must come after some
/// `}`: the parser's placeholder lookahead scans for the first `}` and gives
/// up at a newline.
pub open spec fn newline_needs_close(cs: Seq<char>) -> bool {
    forall|i: int| 0 <= i < cs.len() && cs[i] == '\n' ==> exists|j: int| 0 <= j < i && cs[j] == '}'
}

/// Two adjacent elements whose serializations reparse separately: two text
/// runs would merge, and a digit right after a bare tab stop would be read
/// into its number.
pub open spec fn wf_pair(a: Elem, b: Elem) -> bool {
    &&& !(a is Text && b is Text)
    &&& (a is Tabstop ==> (b matches Elem::Text(t) ==> t.len() > 0 && !is_digit(t[0])))
}

/// A tree the parser can reproduce from its own serialization.
pub open spec fn wf_elem(e: Elem, inner: bool) -> bool
    decreases e, 0int,
{
    match e {
        Elem::Text(t) => wf_text_seq(t, inner),
        Elem::Tabstop(_) => true,
        Elem::PlaceHolder(_, children) => {
            ||| children == seq![Elem::Text(Seq::<char>::empty())]
            ||| (children.len() > 0 && wf_elems(children, true) && newline_needs_close(
                elems_str(children),
            ))
        },
    }
}

pub open spec fn wf_elems(els: Seq<Elem>, inner: bool) -> bool
    decreases els, 1int,
{
    if els.len() == 0 {
        true
    } else {
        &&& wf_elem(els[0], inner)
        &&& (els.len() >= 2 ==> wf_pair(els[0], els[1]))
        &&& wf_elems(els.drop_first(), inner)
    }
}

/// A whole snippet the parser can reproduce: a well-formed top-level sequence.
pub open spec fn wf_snippet(els: Seq<Elem>) -> bool {
    wf_elems(els, false)
}

proof fn lemma_dec_digits_props(n: nat)
    ensures
        dec_digits(n).len() >= 1,
        forall|i: int| 0 <= i < dec_digits(n).len() ==> is_digit(#[trigger] dec_digits(n)[i]),
    decreases n,
{
    if n < 10 {
        assert(is_digit(digit_char(n)));
        assert(dec_digits(n)[0] == digit_char(n));
    } else {
        lemma_dec_digits_props(n / 10);
        assert(is_digit(digit_char(n % 10)));
        assert forall|i: int| 0 <= i < dec_digits(n).len() implies is_digit(
            #[trigger] dec_digits(n)[i],
        ) by {
            if i < dec_digits(n / 10).len() {
                assert(dec_digits(n)[i] == dec_digits(n / 10)[i]);
            } else {
                assert(dec_digits(n)[i] == digit_char(n % 10));
            }
        }
    }
}

/// A run of `k` digits followed by a non-digit (or the end) is read as
/// exactly `k` digits.
proof fn lemma_digit_run_exact(s: Seq<char>, pos: int, k: nat)
    requires
        0 <= pos,
        pos + k <= s.len(),
        forall|i: int| pos <= i < pos + k ==> is_digit(#[trigger] s[i]),
        pos + k == s.len() || !is_digit(s[pos + k]),
    ensures
        digit_run(s, pos) == k,
    decreases k,
{
    if k == 0 {
    } else {
        assert(is_digit(s[pos]));
        lemma_digit_run_exact(s, pos + 1, (k - 1) as nat);
    }
}

/// Reading back the decimal digits of `n` yields `n`.
proof fn lemma_digits_val_embed(s: Seq<char>, pos: int, n: nat)
    requires
        0 <= pos,
        pos + dec_digits(n).len() <= s.len(),
        s.subrange(pos, pos + dec_digits(n).len()) == dec_digits(n),
    ensures
        digits_val(s, pos, dec_digits(n).len()) == n,
    decreases n,
{
    let ds = dec_digits(n);
    let k = ds.len();
    assert forall|i: int| 0 <= i < k implies s[pos + i] == ds[i] by {
        assert(s.subrange(pos, pos + k as int)[i] == s[pos + i]);
    }
    if n < 10 {
        assert(digits_val(s, pos, 1) == digits_val(s, pos, 0) * 10 + digit_of(s[pos]));
        assert(s[pos] == digit_char(n)) by {
            assert(s.subrange(pos, pos + 1)[0] == s[pos]);
            assert(ds[0] == digit_char(n));
        }
        assert(digit_of(digit_char(n)) == n);
    } else {
        let prev = dec_digits(n / 10);
        assert(ds == prev.push(digit_char(n % 10)));
        assert(s.subrange(pos, pos + prev.len() as int) =~= prev);
        lemma_digits_val_embed(s, pos, n / 10);
        assert(digits_val(s, pos, k) == digits_val(s, pos, (k - 1) as nat) * 10 + digit_of(
            s[pos + k - 1],
        ));
        assert((k - 1) as nat == prev.len());
        assert(s[pos + k - 1] == ds[k - 1]);
        assert(ds[k - 1] == digit_char(n % 10));
        assert(digit_of(digit_char(n % 10)) == n % 10);
        assert(digits_val(s, pos, k) == (n / 10) * 10 + n % 10);
    }
}

/// A well-formed text run embedded at `pos`, followed by a stopping
/// character, is consumed whole and unchanged.
proof fn lemma_text_run_embed(s: Seq<char>, pos: int, t: Seq<char>, inner: bool)
    requires
        0 <= pos,
        pos + t.len() <= s.len(),
        s.subrange(pos, pos + t.len()) == t,
        forall|i: int| 0 <= i < t.len() ==> t[i] != '$' && t[i] != '\\' && !(inner && t[i] == '}'),
        pos + t.len() == s.len() || s[pos + t.len()] == '$' || (inner && s[pos + t.len()] == '}'),
    ensures
        spec_text_run(s, pos, inner) == (t, pos + t.len()),
    decreases t.len(),
{
    assert forall|i: int| 0 <= i < t.len() implies s[pos + i] == t[i] by {
        assert(s.subrange(pos, pos + t.len())[i] == s[pos + i]);
    }
    if t.len() == 0 {
        if pos < s.len() {
            assert(is_term(s[pos], inner));
        }
        assert(spec_text_run(s, pos, inner) == (Seq::<char>::empty(), pos));
        assert(spec_text_run(s, pos, inner).0 =~= t);
    } else {
        assert(s[pos] == t[0]);
        assert(!is_term(s[pos], inner));
        assert(s[pos] != '\\');
        assert(s.subrange(pos + 1, pos + t.len()) =~= t.drop_first());
        lemma_text_run_embed(s, pos + 1, t.drop_first(), inner);
        assert(spec_text_run(s, pos, inner).0 =~= seq![s[pos]] + t.drop_first());
        assert(seq![s[pos]] + t.drop_first() =~= t);
    }
}

/// The placeholder lookahead finds a `}` when scanning serialized
/// well-formed content followed by the closing `}`.
proof fn lemma_first_close_embed(s: Seq<char>, cstart: int, cs: Seq<char>)
    requires
        0 <= cstart,
        cstart + cs.len() < s.len(),
        s.subrange(cstart, cstart + cs.len()) == cs,
        s[cstart + cs.len()] == '}',
        newline_needs_close(cs),
    ensures
        spec_first_close(s, cstart) is Some,
    decreases cs.len(),
{
    assert forall|i: int| 0 <= i < cs.len() implies s[cstart + i] == cs[i] by {
        assert(s.subrange(cstart, cstart + cs.len())[i] == s[cstart + i]);
    }
    if cs.len() == 0 {
        assert(s[cstart] == '}');
    } else if cs[0] == '}' {
        assert(s[cstart] == '}');
    } else {
        assert(cs[0] != '\n') by {
            if cs[0] == '\n' {
                assert(exists|j: int| 0 <= j < 0 && cs[j] == '}');
            }
        }
        let tail = cs.drop_first();
        assert(s.subrange(cstart + 1, cstart + 1 + tail.len()) =~= tail);
        assert(newline_needs_close(tail)) by {
            assert forall|i: int| 0 <= i < tail.len() && tail[i] == '\n' implies exists|j: int|
                0 <= j < i && tail[j] == '}' by {
                assert(cs[i + 1] == '\n');
                let j0 = choose|j0: int| 0 <= j0 < i + 1 && cs[j0] == '}';
                assert(j0 != 0);
                assert(tail[j0 - 1] == '}');
            }
        }
        lemma_first_close_embed(s, cstart + 1, tail);
    }
}

proof fn lemma_elem_str_first(e: Elem, inner: bool)
    requires
        wf_elem(e, inner),
    ensures
        elem_str(e).len() >= 1,
        (e is Tabstop || e is PlaceHolder) ==> elem_str(e)[0] == '$',
        e matches Elem::Text(t) ==> elem_str(e) == t,
{
    match e {
        Elem::Text(t) => {},
        Elem::Tabstop(n) => {
            lemma_dec_digits_props(n as nat);
            assert(elem_str(e)[0] == '$');
        },
        Elem::PlaceHolder(n, children) => {
            lemma_dec_digits_props(n as nat);
            assert(elem_str(e)[0] == '$');
        },
    }
}

proof fn lemma_first_close_bounds(s: Seq<char>, from: int)
    ensures
        spec_first_close(s, from) matches Some(k) ==> from <= k < s.len() && s[k] == '}',
    decreases s.len() - from,
{
    if 0 <= from && from < s.len() && s[from] != '}' && s[from] != '\n' {
        lemma_first_close_bounds(s, from + 1);
    }
}

/// A well-formed element embedded at `pos`, with a suitable character (or the
/// end of the template) after it, is recognized exactly.
proof fn lemma_elem_parse(s: Seq<char>, pos: int, e: Elem, inner: bool)
    requires
        wf_elem(e, inner),
        0 <= pos,
        pos + elem_str(e).len() <= s.len(),
        s.subrange(pos, pos + elem_str(e).len()) == elem_str(e),
        e is Text ==> pos + elem_str(e).len() == s.len() || s[pos + elem_str(e).len()] == '$' || (
        inner && s[pos + elem_str(e).len()] == '}'),
        e is Tabstop ==> pos + elem_str(e).len() == s.len() || !is_digit(
            s[pos + elem_str(e).len()],
        ),
    ensures
        spec_element_at(s, pos, inner) == Some((e, pos + elem_str(e).len())),
    decreases elem_str(e).len(), 0int,
{
    let L = elem_str(e).len() as int;
    assert forall|i: int| 0 <= i < L implies s[pos + i] == elem_str(e)[i] by {
        assert(s.subrange(pos, pos + L)[i] == s[pos + i]);
    }
    match e {
        Elem::Text(t) => {
            assert(elem_str(e) == t);
            assert(s[pos] == t[0]);
            assert(s[pos] != '$');
            assert(spec_tabstop_at(s, pos) is None);
            assert(spec_placeholder_at(s, pos) is None);
            lemma_text_run_embed(s, pos, t, inner);
            assert(spec_text_at(s, pos, inner) == Some((e, pos + L)));
        },
        Elem::Tabstop(n) => {
            lemma_dec_digits_props(n as nat);
            let ds = dec_digits(n as nat);
            let dl = ds.len() as int;
            assert(elem_str(e) == seq!['$'] + ds);
            assert(L == 1 + dl);
            assert(s[pos] == '$') by {
                assert(elem_str(e)[0] == '$');
            }
            assert forall|i: int| 0 <= i < dl implies s[pos + 1 + i] == ds[i] by {
                assert(elem_str(e)[1 + i] == ds[i]);
            }
            assert(is_digit(s[pos + 1])) by {
                assert(s[pos + 1] == ds[0]);
            }
            assert forall|i: int| pos + 1 <= i < pos + 1 + dl implies is_digit(#[trigger] s[i]) by {
                assert(s[i] == ds[i - pos - 1]);
            }
            lemma_digit_run_exact(s, pos + 1, ds.len());
            assert(s.subrange(pos + 1, pos + 1 + dl) =~= ds);
            lemma_digits_val_embed(s, pos + 1, n as nat);
            assert(digits_val(s, pos + 1, digit_run(s, pos + 1)) == n as nat);
            assert(spec_tabstop_at(s, pos) == Some((e, pos + L)));
        },
        Elem::PlaceHolder(n, children) => {
            lemma_dec_digits_props(n as nat);
            let ds = dec_digits(n as nat);
            let dl = ds.len() as int;
            let cs = elems_str(children);
            let p1 = seq!['$', '{'] + ds;
            let p2 = p1 + seq![':'];
            let p3 = p2 + cs;
            assert(elem_str(e) == p3 + seq!['}']);
            assert(L == 2 + dl + 1 + cs.len() + 1);
            let cstart = pos + 3 + dl;
            assert(s[pos] == '$') by {
                assert(elem_str(e)[0] == '$');
            }
            assert(s[pos + 1] == '{') by {
                assert(elem_str(e)[1] == '{');
            }
            assert forall|i: int| 0 <= i < dl implies s[pos + 2 + i] == ds[i] by {
                assert(elem_str(e)[2 + i] == ds[i]);
            }
            assert(s[pos + 2 + dl] == ':') by {
                assert(elem_str(e)[2 + dl] == ':');
            }
            assert forall|i: int| 0 <= i < cs.len() implies s[cstart + i] == cs[i] by {
                assert(elem_str(e)[3 + dl + i] == cs[i]);
            }
            assert(s[cstart + cs.len()] == '}') by {
                assert(elem_str(e)[L - 1] == '}');
            }
            // the digit run after `${` is exactly the serialized number
            assert(is_digit(s[pos + 2])) by {
                assert(s[pos + 2] == ds[0]);
            }
            assert forall|i: int| pos + 2 <= i < pos + 2 + dl implies is_digit(#[trigger] s[i]) by {
                assert(s[i] == ds[i - pos - 2]);
            }
            assert(!is_digit(':'));
            lemma_digit_run_exact(s, pos + 2, ds.len());
            assert(s.subrange(pos + 2, pos + 2 + dl) =~= ds);
            lemma_digits_val_embed(s, pos + 2, n as nat);
            // not a tab stop: `{` is no digit, and the run ends at `:`, not `}`
            assert(!is_digit('{'));
            assert(spec_tabstop_at(s, pos) is None);
            // the placeholder branch
            if children =~= seq![Elem::Text(Seq::<char>::empty())] {
                assert(children[0] == Elem::Text(Seq::<char>::empty()));
                assert(children.drop_first() =~= Seq::<Elem>::empty());
                assert(elems_str(Seq::<Elem>::empty()) == Seq::<char>::empty());
                assert(elem_str(Elem::Text(Seq::<char>::empty())) == Seq::<char>::empty());
                assert(cs =~= Seq::<char>::empty());
                assert(s[cstart] == '}');
                assert(spec_first_close(s, cstart) == Some(cstart));
                assert(spec_placeholder_at(s, pos) == Some((e, pos + L)));
            } else {
                assert(children.len() > 0 && wf_elems(children, true) && newline_needs_close(cs));
                let child0 = children[0];
                assert(wf_elem(child0, true));
                lemma_elem_str_first(child0, true);
                assert(cs == elem_str(child0) + elems_str(children.drop_first()));
                assert(cs.len() >= 1);
                assert(cs[0] == elem_str(child0)[0]);
                assert(cs[0] != '}') by {
                    match child0 {
                        Elem::Text(t) => {
                            assert(cs[0] == t[0]);
                        },
                        _ => {
                            assert(cs[0] == '$');
                        },
                    }
                }
                assert(cs[0] != '\n') by {
                    if cs[0] == '\n' {
                        assert(exists|j: int| 0 <= j < 0 && cs[j] == '}');
                    }
                }
                assert(s.subrange(cstart, cstart + cs.len()) =~= cs) by {
                    assert forall|i: int|
                        0 <= i < cs.len() implies s.subrange(cstart, cstart + cs.len())[i] == cs[i] by {
                        assert(s[cstart + i] == cs[i]);
                        assert(s.subrange(cstart, cstart + cs.len())[i] == s[cstart + i]);
                    }
                }
                lemma_first_close_embed(s, cstart, cs);
                lemma_first_close_bounds(s, cstart);
                let k = spec_first_close(s, cstart)->Some_0;
                assert(s[cstart] == cs[0]);
                assert(spec_first_close(s, cstart) == spec_first_close(s, cstart + 1));
                lemma_first_close_bounds(s, cstart + 1);
                assert(k != cstart);
                // children reparse exactly, stopping at the closing brace
                lemma_elems_parse(s, cstart, children, true);
                assert(spec_elements(s, cstart, true) == (children, cstart + cs.len()));
                assert(cstart + cs.len() < s.len());
                assert(spec_placeholder_at(s, pos) == Some((e, pos + L)));
            }
        },
    }
}

/// A well-formed element sequence embedded at `pos` and running up to the
/// closing brace (inside a placeholder) or the template's end (at the top
/// level) is reparsed exactly.
proof fn lemma_elems_parse(s: Seq<char>, pos: int, els: Seq<Elem>, inner: bool)
    requires
        wf_elems(els, inner),
        0 <= pos,
        pos + elems_str(els).len() <= s.len(),
        s.subrange(pos, pos + elems_str(els).len()) == elems_str(els),
        inner ==> pos + elems_str(els).len() < s.len() && s[pos + elems_str(els).len()] == '}',
        !inner ==> pos + elems_str(els).len() == s.len(),
    ensures
        spec_elements(s, pos, inner) == (els, pos + elems_str(els).len()),
    decreases elems_str(els).len(), 1int,
{
    if els.len() == 0 {
        assert(elems_str(els).len() == 0);
        if !inner {
            assert(pos == s.len());
            assert(spec_elements(s, pos, inner).0 =~= els);
        } else {
            assert(s[pos] == '}');
            assert(spec_tabstop_at(s, pos) is None);
            assert(spec_placeholder_at(s, pos) is None);
            assert(spec_text_run(s, pos, inner) == (Seq::<char>::empty(), pos));
            assert(spec_element_at(s, pos, inner) is None);
            assert(spec_elements(s, pos, inner).0 =~= els);
        }
    } else {
        let el = els[0];
        let rest = els.drop_first();
        let L0 = elem_str(el).len() as int;
        let L = elems_str(els).len() as int;
        assert(wf_elem(el, inner) && wf_elems(rest, inner));
        assert(elems_str(els) == elem_str(el) + elems_str(rest));
        lemma_elem_str_first(el, inner);
        assert forall|i: int| 0 <= i < L implies s[pos + i] == elems_str(els)[i] by {
            assert(s.subrange(pos, pos + L)[i] == s[pos + i]);
        }
        assert(s.subrange(pos, pos + L0) =~= elem_str(el));
        let after0 = pos + L0;
        // the character after this element lets it stop exactly
        if els.len() >= 2 {
            let nx = els[1];
            assert(wf_elem(nx, inner)) by {
                assert(rest[0] == nx);
                assert(wf_elems(rest, inner));
            }
            lemma_elem_str_first(nx, inner);
            assert(elems_str(rest) == elem_str(nx) + elems_str(rest.drop_first())) by {
                assert(rest[0] == nx);
            }
            assert(s[after0] == elem_str(nx)[0]) by {
                assert(elems_str(els)[L0] == elems_str(rest)[0]);
            }
            assert(wf_pair(el, nx));
            if el is Text {
                assert(!(nx is Text));
                assert(s[after0] == '$');
            }
            if el is Tabstop {
                match nx {
                    Elem::Text(t) => {
                        assert(!is_digit(t[0]));
                        assert(s[after0] == t[0]);
                    },
                    _ => {
                        assert(s[after0] == '$');
                        assert(!is_digit('$'));
                    },
                }
            }
        } else {
            assert(rest.len() == 0);
            assert(elems_str(rest).len() == 0);
            assert(after0 == pos + L);
            if inner {
                assert(s[after0] == '}');
                assert(!is_digit('}'));
            }
        }
        lemma_elem_parse(s, pos, el, inner);
        assert(s.subrange(after0, after0 + elems_str(rest).len()) =~= elems_str(rest)) by {
            assert forall|i: int|
                0 <= i < elems_str(rest).len() implies s.subrange(
                after0,
                after0 + elems_str(rest).len(),
            )[i] == elems_str(rest)[i] by {
                assert(s[pos + (L0 + i)] == elems_str(els)[L0 + i]);
                assert(elems_str(els)[L0 + i] == elems_str(rest)[i]);
                assert(s.subrange(after0, after0 + elems_str(rest).len())[i] == s[after0 + i]);
            }
        }
        lemma_elems_parse(s, after0, rest, inner);
        assert(pos < after0 <= s.len());
        assert(spec_elements(s, pos, inner) == (
            seq![el] + spec_elements(s, after0, inner).0,
            spec_elements(s, after0, inner).1,
        ));
        assert(seq![el] + rest =~= els);
        assert(spec_elements(s, pos, inner).0 =~= els);
    }
}

/// The round-trip law: serializing any well-formed snippet tree and parsing
/// the result yields the same tree again, and hence also the same text.
pub proof fn lemma_round_trip(els: Seq<Elem>)
    requires
        wf_snippet(els),
    ensures
        spec_parse(elems_str(els)) == els,
        elems_str(spec_parse(elems_str(els))) == elems_str(els),
{
    let s = elems_str(els);
    assert(s.subrange(0, s.len() as int) =~= s);
    lemma_elems_parse(s, 0, els, false);
}

// ---------------------------------------------------------------------------
// Tab-stop enumeration
// ---------------------------------------------------------------------------

/// The executable tab entries render the model's spans, entry for entry.
pub open spec fn tabs_match(v: Seq<(usize, (usize, usize))>, m: Seq<(usize, (int, int))>) -> bool {
    &&& v.len() == m.len()
    &&& forall|i: int|
        0 <= i < m.len() ==> v[i].0 == m[i].0 && v[i].1.0 == m[i].1.0 && v[i].1.1 == m[i].1.1
}

proof fn lemma_tabs_match_concat(
    v1: Seq<(usize, (usize, usize))>,
    v2: Seq<(usize, (usize, usize))>,
    m1: Seq<(usize, (int, int))>,
    m2: Seq<(usize, (int, int))>,
)
    requires
        tabs_match(v1, m1),
        tabs_match(v2, m2),
    ensures
        tabs_match(v1 + v2, m1 + m2),
{
    assert forall|i: int| 0 <= i < (m1 + m2).len() implies (v1 + v2)[i].0 == (m1 + m2)[i].0 && (v1
        + v2)[i].1.0 == (m1 + m2)[i].1.0 && (v1 + v2)[i].1.1 == (m1 + m2)[i].1.1 by {
        if i < m1.len() {
            assert((v1 + v2)[i] == v1[i]);
            assert((m1 + m2)[i] == m1[i]);
        } else {
            assert((v1 + v2)[i] == v2[i - m1.len()]);
            assert((m1 + m2)[i] == m2[i - m1.len()]);
        }
    }
}

/// The flattened text of a sequence splits at any index.
proof fn lemma_elems_text_split(els: Seq<Elem>, j: int)
    requires
        0 <= j <= els.len(),
    ensures
        elems_text(els) == elems_text(els.take(j)) + elems_text(els.skip(j)),
    decreases j,
{
    if j == 0 {
        assert(els.take(0) =~= Seq::<Elem>::empty());
        assert(els.skip(0) =~= els);
        assert(elems_text(els) =~= elems_text(els.take(0)) + elems_text(els.skip(0)));
    } else {
        lemma_elems_text_split(els, j - 1);
        lemma_elems_text_push(els.take(j - 1), els[j - 1]);
        assert(els.take(j) =~= els.take(j - 1).push(els[j - 1]));
        assert(els.skip(j - 1) =~= seq![els[j - 1]] + els.skip(j));
        assert(elems_text(els.skip(j - 1)) == elem_text(els.skip(j - 1)[0]) + elems_text(
            els.skip(j - 1).drop_first(),
        ));
        assert(els.skip(j - 1)[0] == els[j - 1]);
        assert(els.skip(j - 1).drop_first() =~= els.skip(j));
        assert(elems_text(els) =~= elems_text(els.take(j)) + elems_text(els.skip(j)));
    }
}

/// Appends `src` to `dst`.
fn extend_tabs(dst: &mut Vec<(usize, (usize, usize))>, src: &Vec<(usize, (usize, usize))>)
    ensures
        final(dst)@ == old(dst)@ + src@,
{
    let mut i: usize = 0;
    while i < src.len()
        invariant
            i <= src@.len(),
            dst@ == old(dst)@ + src@.take(i as int),
        decreases src@.len() - i,
    {
        dst.push(src[i]);
        proof {
            assert(dst@ =~= old(dst)@ + src@.take(i + 1));
        }
        i += 1;
    }
    proof {
        assert(old(dst)@ + src@.take(src@.len() as int) =~= old(dst)@ + src@);
    }
}

/// The tab entries of one element placed at offset `pos`.
fn tab_elem(e: &SnippetElement, pos: usize) -> (r: Vec<(usize, (usize, usize))>)
    requires
        pos + elem_text(e@).len() <= usize::MAX,
    ensures
        tabs_match(r@, elem_tabs(e@, pos as int)),
    decreases e,
{
    match e {
        SnippetElement::Text(_) => Vec::new(),
        SnippetElement::Tabstop(n) => {
            let mut out: Vec<(usize, (usize, usize))> = Vec::new();
            out.push((*n, (pos, pos)));
            out
        },
        SnippetElement::PlaceHolder(n, els) => {
            let ghost cv = elems_view(els@);
            let ghost m0: Seq<(usize, (int, int))> = seq![
                (*n, (pos as int, pos + elems_text(cv).len())),
            ];
            proof {
                lemma_elems_view_index(els@);
                assert(elem_tabs(e@, pos as int) =~= m0 + elems_tabs(cv, pos as int));
            }
            let w = e.len();
            let mut out: Vec<(usize, (usize, usize))> = Vec::new();
            out.push((*n, (pos, pos + w)));
            let ghost own = out@;
            proof {
                assert(tabs_match(own, m0));
                assert(out@.take(1) =~= own);
                assert(out@.skip(1) =~= Seq::<(usize, (usize, usize))>::empty());
                assert(cv.take(0) =~= Seq::<Elem>::empty());
                assert(elems_tabs(Seq::<Elem>::empty(), pos as int) == Seq::<(
                    usize,
                    (int, int),
                )>::empty());
            }
            let mut cur = pos;
            let mut i: usize = 0;
            while i < els.len()
                invariant
                    i <= els@.len(),
                    cv == elems_view(els@),
                    cv.len() == els@.len(),
                    forall|k: int| 0 <= k < els@.len() ==> cv[k] == elem_view(els@[k]),
                    pos + elems_text(cv).len() <= usize::MAX,
                    cur == pos + elems_text(cv.take(i as int)).len(),
                    out@.len() >= 1,
                    out@.take(1) == own,
                    tabs_match(out@.skip(1), elems_tabs(cv.take(i as int), pos as int)),
                    decreases_to!(e => *els),
                decreases els@.len() - i,
            {
                proof {
                    assert(decreases_to!(*els => els@[i as int]));
                    lemma_elems_text_push(cv.take(i as int), cv[i as int]);
                    assert(cv.take(i + 1) =~= cv.take(i as int).push(cv[i as int]));
                    lemma_elems_text_split(cv, i + 1);
                    assert(elems_text(cv.take(i + 1)).len() <= elems_text(cv).len());
                }
                let t = tab_elem(&els[i], cur);
                let ghost old_out = out@;
                extend_tabs(&mut out, &t);
                proof {
                    lemma_elems_tabs_push(cv.take(i as int), cv[i as int], pos as int);
                    lemma_tabs_match_concat(
                        old_out.skip(1),
                        t@,
                        elems_tabs(cv.take(i as int), pos as int),
                        elem_tabs(cv[i as int], cur as int),
                    );
                    assert(out@.skip(1) =~= old_out.skip(1) + t@);
                    assert(out@.take(1) =~= old_out.take(1));
                }
                cur = cur + els[i].len();
                proof {
                    assert(cur == pos + elems_text(cv.take(i + 1)).len());
                }
                i += 1;
            }
            proof {
                assert(cv.take(cv.len() as int) =~= cv);
                assert(out@ =~= own + out@.skip(1));
                lemma_tabs_match_concat(own, out@.skip(1), m0, elems_tabs(cv, pos as int));
            }
            out
        },
    }
}

impl Snippet {
    /// The exact template text this snippet serializes to.
    pub fn to_string(&self) -> (r: String)
        ensures
            r@ == elems_str(self@),
    {
        let ghost cv = elems_view(self.elements@);
        proof {
            lemma_elems_view_index(self.elements@);
        }
        let els = &self.elements;
        let mut out = String::new();
        let mut i: usize = 0;
        while i < els.len()
            invariant
                i <= els@.len(),
                cv == elems_view(els@),
                cv.len() == els@.len(),
                forall|k: int| 0 <= k < els@.len() ==> cv[k] == elem_view(els@[k]),
                out@ == elems_str(cv.take(i as int)),
            decreases els@.len() - i,
        {
            let cs = els[i].to_string();
            out.append(cs.as_str());
            proof {
                lemma_elems_str_push(cv.take(i as int), cv[i as int]);
                assert(cv.take(i + 1) =~= cv.take(i as int).push(cv[i as int]));
                assert(out@ =~= elems_str(cv.take(i + 1)));
            }
            i += 1;
        }
        proof {
            assert(cv.take(cv.len() as int) =~= cv);
        }
        out
    }

    /// The flattened literal text of the whole snippet.
    pub fn text(&self) -> (r: String)
        ensures
            r@ == elems_text(self@),
    {
        let ghost cv = elems_view(self.elements@);
        proof {
            lemma_elems_view_index(self.elements@);
        }
        let els = &self.elements;
        let mut out = String::new();
        let mut i: usize = 0;
        while i < els.len()
            invariant
                i <= els@.len(),
                cv == elems_view(els@),
                cv.len() == els@.len(),
                forall|k: int| 0 <= k < els@.len() ==> cv[k] == elem_view(els@[k]),
                out@ == elems_text(cv.take(i as int)),
            decreases els@.len() - i,
        {
            let cs = els[i].text();
            out.append(cs.as_str());
            proof {
                lemma_elems_text_push(cv.take(i as int), cv[i as int]);
                assert(cv.take(i + 1) =~= cv.take(i as int).push(cv[i as int]));
                assert(out@ =~= elems_text(cv.take(i + 1)));
            }
            i += 1;
        }
        proof {
            assert(cv.take(cv.len() as int) =~= cv);
        }
        out
    }

    /// The tab stops of every tab-stop and placeholder element, parent first,
    /// with their spans in the flattened text starting at offset `pos`.
    pub fn tabs(&self, pos: usize) -> (r: Vec<(usize, (usize, usize))>)
        requires
            pos + elems_text(self@).len() <= usize::MAX,
        ensures
            tabs_match(r@, elems_tabs(self@, pos as int)),
    {
        Self::elements_tabs(self.elements.as_slice(), pos)
    }

    /// The tab stops of a sequence of elements laid out from offset `start`.
    pub fn elements_tabs(elements: &[SnippetElement], start: usize) -> (r: Vec<
        (usize, (usize, usize)),
    >)
        requires
            start + elems_text(elems_view(elements@)).len() <= usize::MAX,
        ensures
            tabs_match(r@, elems_tabs(elems_view(elements@), start as int)),
    {
        let ghost cv = elems_view(elements@);
        proof {
            lemma_elems_view_index(elements@);
            assert(cv.take(0) =~= Seq::<Elem>::empty());
        }
        let n = elements.len();
        let mut out: Vec<(usize, (usize, usize))> = Vec::new();
        let mut cur = start;
        let mut i: usize = 0;
        while i < n
            invariant
                i <= elements@.len(),
                n == elements@.len(),
                cv == elems_view(elements@),
                cv.len() == elements@.len(),
                forall|k: int| 0 <= k < elements@.len() ==> cv[k] == elem_view(elements@[k]),
                start + elems_text(cv).len() <= usize::MAX,
                cur == start + elems_text(cv.take(i as int)).len(),
                tabs_match(out@, elems_tabs(cv.take(i as int), start as int)),
            decreases elements@.len() - i,
        {
            proof {
                lemma_elems_text_push(cv.take(i as int), cv[i as int]);
                assert(cv.take(i + 1) =~= cv.take(i as int).push(cv[i as int]));
                lemma_elems_text_split(cv, i + 1);
                assert(elems_text(cv.take(i + 1)).len() <= elems_text(cv).len());
            }
            let el = vstd::slice::slice_index_get(elements, i);
            let t = tab_elem(el, cur);
            let ghost old_out = out@;
            extend_tabs(&mut out, &t);
            proof {
                lemma_elems_tabs_push(cv.take(i as int), cv[i as int], start as int);
                lemma_tabs_match_concat(
                    old_out,
                    t@,
                    elems_tabs(cv.take(i as int), start as int),
                    elem_tabs(cv[i as int], cur as int),
                );
            }
            cur = cur + el.len();
            i += 1;
        }
        proof {
            assert(cv.take(cv.len() as int) =~= cv);
        }
        out
    }
}

} // verus!
