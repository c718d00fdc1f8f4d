//! Assembly: injectors fill their slots or append their text, then the
//! context fills the slots that remain.

use vstd::prelude::*;
use crate::slot::{
    dedup, extract_slot_chars, law_dedup_same_elements, slot_names, slot_tag, tag,
};
use crate::text::{
    chars_of, contains_chars, contains_text, join, join_chars, push_all, replace_all,
    replace_chars, string_of, views,
};
use crate::types::{context_text, text_of, Context, ContextValue, Injector};

verus! {

/// The blank line that separates appended parts.
pub open spec fn blank_line() -> Seq<char> {
    seq!['\n', '\n']
}

/// What the text `inj` of an injector for `slot` does to the template `t`:
/// the new template, and the text appended after it, if any. Where the slot
/// occurs, the text replaces it; elsewhere a non-empty text is appended.
pub open spec fn injection_outcome(t: Seq<char>, slot: Seq<char>, inj: Seq<char>) -> (
    Seq<char>,
    Option<Seq<char>>,
) {
    if contains_text(t, tag(slot)) {
        (replace_all(t, tag(slot), inj), None)
    } else if inj.len() > 0 {
        (t, Some(inj))
    } else {
        (t, None)
    }
}

/// The template and the appended parts after the first `n` injectors, whose
/// slots are `slots` and whose texts are `injs`, have run on `t`.
pub open spec fn inject_prefix(
    t: Seq<char>,
    slots: Seq<Seq<char>>,
    injs: Seq<Seq<char>>,
    n: int,
) -> (Seq<char>, Seq<Seq<char>>)
    decreases n,
{
    if n <= 0 {
        (t, Seq::empty())
    } else {
        let (cur, parts) = inject_prefix(t, slots, injs, n - 1);
        let (next, appended) = injection_outcome(cur, slots[n - 1], injs[n - 1]);
        match appended {
            Some(x) => (next, parts.push(x)),
            None => (next, parts),
        }
    }
}

/// `t` after each of `slots`, in order, has been filled with the text that
/// the context holds for it (slots without such text are left alone).
pub open spec fn fill_each(t: Seq<char>, slots: Seq<Seq<char>>, ctx: Map<Seq<char>, ContextValue>) -> Seq<char>
    decreases slots.len(),
{
    if slots.len() == 0 {
        t
    } else {
        let next = match context_text(ctx, slots[0]) {
            Some(text) => replace_all(t, tag(slots[0]), text),
            None => t,
        };
        fill_each(next, slots.drop_first(), ctx)
    }
}

/// `t` with its slots filled from the context: the slots of `t`, in the
/// order of first occurrence, each filled in turn.
pub open spec fn base_fill(t: Seq<char>, ctx: Map<Seq<char>, ContextValue>) -> Seq<char> {
    fill_each(t, dedup(slot_names(t)), ctx)
}

/// The assembled prompt for the template `t`, injectors with slots `slots`
/// whose functions returned `injs`, and the context `ctx`: the template
/// after the injections and the base fill, followed by the appended parts,
/// each after a blank line.
pub open spec fn assembled(
    t: Seq<char>,
    slots: Seq<Seq<char>>,
    injs: Seq<Seq<char>>,
    ctx: Map<Seq<char>, ContextValue>,
) -> Seq<char> {
    let (cur, parts) = inject_prefix(t, slots, injs, slots.len() as int);
    let filled = base_fill(cur, ctx);
    if parts.len() == 0 {
        filled
    } else {
        filled + blank_line() + join(parts, blank_line())
    }
}

/// The slot names of pairs of a slot name and a text.
pub open spec fn pair_slots(p: Seq<(String, String)>) -> Seq<Seq<char>> {
    p.map_values(|x: (String, String)| x.0@)
}

/// The texts of pairs of a slot name and a text.
pub open spec fn pair_texts(p: Seq<(String, String)>) -> Seq<Seq<char>> {
    p.map_values(|x: (String, String)| x.1@)
}

/// The slot names of injectors.
pub open spec fn rule_slots<F>(rules: Seq<Injector<F>>) -> Seq<Seq<char>> {
    rules.map_values(|r: Injector<F>| r.slot@)
}


/// What the text `injection` of an injector for `slot` does to `template`:
/// where `{{slot}}` occurs, the text replaces every occurrence and nothing is
/// appended; elsewhere the template stays and a non-empty text is returned
/// to be appended.
pub fn apply_injection(template: &str, slot: &str, injection: String) -> (r: (String, Option<String>))
    ensures
        r.0@ == injection_outcome(template@, slot@, injection@).0,
        match r.1 {
            Some(x) => injection_outcome(template@, slot@, injection@).1 == Some(x@),
            None => injection_outcome(template@, slot@, injection@).1 is None,
        },
{
    let t = chars_of(template);
    let p = slot_tag(slot);
    let inj = chars_of(injection.as_str());
    if contains_chars(&t, &p) {
        (string_of(&replace_chars(&t, &p, &inj)), None)
    } else if inj.len() > 0 {
        (template.to_owned(), Some(injection))
    } else {
        (template.to_owned(), None)
    }
}

/// `t` with its slots filled from the context.
fn base_fill_chars(t: Vec<char>, context: &Context) -> (out: Vec<char>)
    ensures
        out@ == base_fill(t@, context@),
{
    let slots = extract_slot_chars(&t);
    let ghost sv = views(slots@);
    let ghost t0 = t@;
    let mut cur = t;
    let mut k: usize = 0;
    assert(sv.skip(0) =~= sv);
    while k < slots.len()
        invariant
            k <= slots.len(),
            sv == views(slots@),
            sv == dedup(slot_names(t0)),
            base_fill(t0, context@) == fill_each(cur@, sv.skip(k as int), context@),
        decreases slots.len() - k,
    {
        let ghost before = cur@;
        assert(sv.skip(k as int)[0] == slots@[k as int]@);
        assert(sv.skip(k as int).drop_first() =~= sv.skip(k + 1));
        match context.get(slots[k].as_str()) {
            Some(v) => match text_of(v) {
                Some(text) => {
                    let p = slot_tag(slots[k].as_str());
                    let r = chars_of(text.as_str());
                    cur = replace_chars(&cur, &p, &r);
                },
                None => {},
            },
            None => {},
        }
        k += 1;
    }
    assert(sv.skip(k as int).len() == 0);
    cur
}

/// `template` with its slots filled from the context: each slot of the
/// template, in the order of first occurrence, that the context holds a
/// string or a number for is replaced by that text.
pub fn apply_base_rules(template: &str, context: &Context) -> (filled: String)
    ensures
        filled@ == base_fill(template@, context@),
{
    string_of(&base_fill_chars(chars_of(template), context))
}

/// Assembles a prompt from `base_prompt`, the slots and texts of injectors
/// (`injected`, in order), and the context.
pub fn assemble_with(base_prompt: &str, injected: &[(String, String)], context: &Context) -> (prompt: String)
    ensures
        prompt@ == assembled(base_prompt@, pair_slots(injected@), pair_texts(injected@), context@),
{
    let ghost slots = pair_slots(injected@);
    let ghost texts = pair_texts(injected@);
    let mut cur = chars_of(base_prompt);
    let mut parts: Vec<Vec<char>> = Vec::new();
    let mut i: usize = 0;
    while i < injected.len()
        invariant
            i <= injected@.len(),
            slots == pair_slots(injected@),
            texts == pair_texts(injected@),
            inject_prefix(base_prompt@, slots, texts, i as int) == (cur@, parts@.map_values(|v: Vec<char>| v@)),
        decreases injected@.len() - i,
    {
        let p = slot_tag(injected[i].0.as_str());
        let inj = chars_of(injected[i].1.as_str());
        assert(slots[i as int] == injected@[i as int].0@);
        assert(texts[i as int] == injected@[i as int].1@);
        let ghost pv = parts@.map_values(|v: Vec<char>| v@);
        if contains_chars(&cur, &p) {
            cur = replace_chars(&cur, &p, &inj);
        } else if inj.len() > 0 {
            parts.push(inj);
            assert(parts@.map_values(|v: Vec<char>| v@) =~= pv.push(texts[i as int]));
        }
        i += 1;
    }
    let filled = base_fill_chars(cur, context);
    if parts.len() == 0 {
        string_of(&filled)
    } else {
        let mut sep: Vec<char> = Vec::new();
        sep.push('\n');
        sep.push('\n');
        let mut out = filled;
        push_all(&mut out, &sep);
        let joined = join_chars(&parts, &sep);
        push_all(&mut out, &joined);
        assert(sep@ =~= blank_line());
        string_of(&out)
    }
}

/// Assembles a prompt from `base_prompt`, the injectors in `rules` (in
/// order) and the context: each injector's function runs once on the
/// context, in order, and the prompt is what `assemble_with` makes of the
/// texts they returned.
pub fn assemble<F: Fn(&Context) -> String>(base_prompt: &str, rules: &[Injector<F>], context: &Context) -> (prompt: String)
    requires
        forall|i: int| 0 <= i < rules@.len() ==> call_requires(rules@[i].fn_, (context,)),
    ensures
        exists|outs: Seq<String>|
            {
                &&& outs.len() == rules@.len()
                &&& forall|i: int|
                    0 <= i < rules@.len() ==> call_ensures(rules@[i].fn_, (context,), #[trigger] outs[i])
                &&& prompt@ == assembled(base_prompt@, rule_slots(rules@), views(outs), context@)
            },
{
    let mut injected: Vec<(String, String)> = Vec::new();
    let ghost mut outs: Seq<String> = Seq::empty();
    let mut i: usize = 0;
    while i < rules.len()
        invariant
            i <= rules@.len(),
            forall|j: int| 0 <= j < rules@.len() ==> call_requires(rules@[j].fn_, (context,)),
            injected@.len() == i,
            outs.len() == i,
            forall|j: int| 0 <= j < i ==> call_ensures(rules@[j].fn_, (context,), #[trigger] outs[j]),
            forall|j: int| 0 <= j < i ==> (#[trigger] injected@[j]).0@ == rules@[j].slot@,
            forall|j: int| 0 <= j < i ==> (#[trigger] injected@[j]).1 == outs[j],
        decreases rules@.len() - i,
    {
        let rule = &rules[i];
        let text = (rule.fn_)(context);
        proof {
            outs = outs.push(text);
        }
        injected.push((rule.slot.clone(), text));
        i += 1;
    }
    let prompt = assemble_with(base_prompt, &injected, context);
    assert(pair_slots(injected@) =~= rule_slots(rules@));
    assert(pair_texts(injected@) =~= views(outs));
    prompt
}


proof fn lemma_fill_each_without_text(
    t: Seq<char>,
    slots: Seq<Seq<char>>,
    ctx: Map<Seq<char>, ContextValue>,
)
    requires
        forall|k: int| 0 <= k < slots.len() ==> context_text(ctx, #[trigger] slots[k]) is None,
    ensures
        fill_each(t, slots, ctx) == t,
    decreases slots.len(),
{
    if slots.len() > 0 {
        assert(context_text(ctx, slots[0]) is None);
        assert forall|k: int| 0 <= k < slots.drop_first().len() implies context_text(
            ctx,
            #[trigger] slots.drop_first()[k],
        ) is None by {
            assert(slots.drop_first()[k] == slots[k + 1]);
        }
        lemma_fill_each_without_text(t, slots.drop_first(), ctx);
    }
}

/// A template whose slots the context holds no text for comes out of the
/// base fill as it is.
pub proof fn law_base_fill_without_text_is_identity(t: Seq<char>, ctx: Map<Seq<char>, ContextValue>)
    requires
        forall|n: Seq<char>| #[trigger] slot_names(t).contains(n) ==> context_text(ctx, n) is None,
    ensures
        base_fill(t, ctx) == t,
{
    let d = dedup(slot_names(t));
    law_dedup_same_elements(slot_names(t));
    assert forall|k: int| 0 <= k < d.len() implies context_text(ctx, #[trigger] d[k]) is None by {
        assert(d.contains(d[k]));
        assert(slot_names(t).contains(d[k]));
    }
    lemma_fill_each_without_text(t, d, ctx);
}

/// Without injectors, and with a context that holds no text for any slot of
/// the template, assembly gives the template back unchanged.
pub proof fn law_identity_without_rules(t: Seq<char>, ctx: Map<Seq<char>, ContextValue>)
    requires
        forall|n: Seq<char>| #[trigger] slot_names(t).contains(n) ==> context_text(ctx, n) is None,
    ensures
        assembled(t, Seq::empty(), Seq::empty(), ctx) == t,
{
    law_base_fill_without_text_is_identity(t, ctx);
}

/// Inline injection: when the template holds `{{slot}}`, the injector's text
/// replaces it and nothing is appended.
pub proof fn law_inline_injection(
    t: Seq<char>,
    slot: Seq<char>,
    text: Seq<char>,
    ctx: Map<Seq<char>, ContextValue>,
)
    requires
        contains_text(t, tag(slot)),
    ensures
        assembled(t, seq![slot], seq![text], ctx) == base_fill(replace_all(t, tag(slot), text), ctx),
{
    assert(inject_prefix(t, seq![slot], seq![text], 0) == (t, Seq::<Seq<char>>::empty()));
}

/// Appended injection: when the template does not hold `{{slot}}`, a
/// non-empty text is appended after the filled template and a blank line.
pub proof fn law_appended_injection(
    t: Seq<char>,
    slot: Seq<char>,
    text: Seq<char>,
    ctx: Map<Seq<char>, ContextValue>,
)
    requires
        !contains_text(t, tag(slot)),
        text.len() > 0,
    ensures
        assembled(t, seq![slot], seq![text], ctx) == base_fill(t, ctx) + blank_line() + text,
{
    assert(inject_prefix(t, seq![slot], seq![text], 0) == (t, Seq::<Seq<char>>::empty()));
    let parts = seq![text];
    assert(inject_prefix(t, seq![slot], seq![text], 1).1 =~= parts);
    assert(join(parts, blank_line()) == text);
}

/// An empty text for a slot the template does not hold adds nothing.
pub proof fn law_empty_text_not_appended(
    t: Seq<char>,
    slot: Seq<char>,
    ctx: Map<Seq<char>, ContextValue>,
)
    requires
        !contains_text(t, tag(slot)),
    ensures
        assembled(t, seq![slot], seq![Seq::<char>::empty()], ctx) == base_fill(t, ctx),
{
    assert(inject_prefix(t, seq![slot], seq![Seq::<char>::empty()], 0) == (
        t,
        Seq::<Seq<char>>::empty(),
    ));
}

/// The non-empty texts among `injs`, in order.
pub open spec fn non_empty(injs: Seq<Seq<char>>) -> Seq<Seq<char>> {
    injs.filter(|x: Seq<char>| x.len() > 0)
}

proof fn lemma_inject_prefix_all_absent(
    t: Seq<char>,
    slots: Seq<Seq<char>>,
    injs: Seq<Seq<char>>,
    n: int,
)
    requires
        0 <= n <= slots.len(),
        slots.len() == injs.len(),
        forall|k: int| 0 <= k < slots.len() ==> !contains_text(t, tag(#[trigger] slots[k])),
    ensures
        inject_prefix(t, slots, injs, n) == (t, non_empty(injs.take(n))),
    decreases n,
{
    if n == 0 {
        assert(injs.take(0) =~= Seq::<Seq<char>>::empty());
        assert(non_empty(injs.take(0)) =~= Seq::<Seq<char>>::empty());
    } else {
        lemma_inject_prefix_all_absent(t, slots, injs, n - 1);
        assert(!contains_text(t, tag(slots[n - 1])));
        assert(injs.take(n).drop_last() =~= injs.take(n - 1));
        reveal_with_fuel(Seq::filter, 1);
        assert(injs.take(n).last() == injs[n - 1]);
    }
}

/// Appended texts keep the order of the injectors: when no injector's slot
/// occurs in the template, the prompt is the filled template followed by
/// the non-empty texts, in the order of the injectors, each after a blank
/// line.
pub proof fn law_appended_in_rule_order(
    t: Seq<char>,
    slots: Seq<Seq<char>>,
    injs: Seq<Seq<char>>,
    ctx: Map<Seq<char>, ContextValue>,
)
    requires
        slots.len() == injs.len(),
        forall|k: int| 0 <= k < slots.len() ==> !contains_text(t, tag(#[trigger] slots[k])),
    ensures
        assembled(t, slots, injs, ctx) == if non_empty(injs).len() == 0 {
            base_fill(t, ctx)
        } else {
            base_fill(t, ctx) + blank_line() + join(non_empty(injs), blank_line())
        },
{
    lemma_inject_prefix_all_absent(t, slots, injs, slots.len() as int);
    assert(injs.take(slots.len() as int) =~= injs);
}

proof fn lemma_dedup_of_one_name(s: Seq<Seq<char>>, n: Seq<char>)
    requires
        s.len() > 0,
        forall|i: int| 0 <= i < s.len() ==> s[i] == n,
    ensures
        dedup(s) == seq![n],
    decreases s.len(),
{
    if s.len() == 1 {
        assert(s.drop_last() =~= Seq::<Seq<char>>::empty());
        assert(dedup(s.drop_last()) =~= Seq::<Seq<char>>::empty());
        assert(s.last() == n);
        assert(seq![n] =~= Seq::<Seq<char>>::empty().push(n));
    } else {
        assert forall|i: int| 0 <= i < s.drop_last().len() implies s.drop_last()[i] == n by {
            assert(s.drop_last()[i] == s[i]);
        }
        lemma_dedup_of_one_name(s.drop_last(), n);
        assert(seq![n][0] == n);
        assert(dedup(s.drop_last()).contains(n));
        assert(s.last() == n);
    }
}

/// A template whose placeholders all name one slot, for which the context
/// holds a text, has every placeholder replaced by that text.
pub proof fn law_single_slot_filled_from_context(
    t: Seq<char>,
    n: Seq<char>,
    text: Seq<char>,
    ctx: Map<Seq<char>, ContextValue>,
)
    requires
        slot_names(t).len() > 0,
        forall|i: int| 0 <= i < slot_names(t).len() ==> slot_names(t)[i] == n,
        context_text(ctx, n) == Some(text),
    ensures
        base_fill(t, ctx) == replace_all(t, tag(n), text),
{
    lemma_dedup_of_one_name(slot_names(t), n);
    let d = seq![n];
    assert(d[0] == n);
    assert(d.drop_first() =~= Seq::<Seq<char>>::empty());
    assert(fill_each(replace_all(t, tag(n), text), d.drop_first(), ctx) == replace_all(
        t,
        tag(n),
        text,
    ));
}


/// Filling with no slots leaves the template as it is.
pub proof fn law_fill_nothing(t: Seq<char>, ctx: Map<Seq<char>, ContextValue>)
    ensures
        fill_each(t, Seq::empty(), ctx) == t,
{
}

/// A slot the context holds no text for is skipped, and the fill goes on
/// with the slots after it.
pub proof fn law_fill_skips_slot_without_text(
    t: Seq<char>,
    slots: Seq<Seq<char>>,
    ctx: Map<Seq<char>, ContextValue>,
)
    requires
        slots.len() > 0,
        context_text(ctx, slots[0]) is None,
    ensures
        fill_each(t, slots, ctx) == fill_each(t, slots.drop_first(), ctx),
{
}

/// A slot the context holds a text for has every placeholder replaced by
/// that text, and the fill goes on with the slots after it.
pub proof fn law_fill_replaces_slot_with_text(
    t: Seq<char>,
    slots: Seq<Seq<char>>,
    ctx: Map<Seq<char>, ContextValue>,
    text: Seq<char>,
)
    requires
        slots.len() > 0,
        context_text(ctx, slots[0]) == Some(text),
    ensures
        fill_each(t, slots, ctx) == fill_each(replace_all(t, tag(slots[0]), text), slots.drop_first(), ctx),
{
}

/// Whether the context holds a text for `n`.
pub open spec fn has_text(ctx: Map<Seq<char>, ContextValue>, n: Seq<char>) -> bool {
    context_text(ctx, n) is Some
}

/// The fill depends only on the slots the context holds a text for: those
/// without are skipped wherever they stand.
pub proof fn law_fill_only_slots_with_text(
    t: Seq<char>,
    slots: Seq<Seq<char>>,
    ctx: Map<Seq<char>, ContextValue>,
)
    ensures
        fill_each(t, slots, ctx) == fill_each(t, slots.filter(|n: Seq<char>| has_text(ctx, n)), ctx),
    decreases slots.len(),
{
    let pred = |n: Seq<char>| has_text(ctx, n);
    if slots.len() == 0 {
        reveal_with_fuel(Seq::filter, 1);
        assert(slots.filter(pred) =~= slots);
    } else {
        let rest = slots.drop_first();
        assert(slots =~= seq![slots[0]] + rest);
        rest.lemma_filter_prepend(slots[0], pred);
        let next = match context_text(ctx, slots[0]) {
            Some(text) => replace_all(t, tag(slots[0]), text),
            None => t,
        };
        law_fill_only_slots_with_text(next, rest, ctx);
        if pred(slots[0]) {
            let f = seq![slots[0]] + rest.filter(pred);
            assert(f[0] == slots[0]);
            assert(f.drop_first() =~= rest.filter(pred));
        } else {
            law_fill_only_slots_with_text(t, rest, ctx);
        }
    }
}

/// A template with two slots, of which the context holds a text only for
/// the second, has that slot filled: the slot without text does not stop
/// the fill.
pub proof fn law_base_fill_past_slot_without_text(
    t: Seq<char>,
    a: Seq<char>,
    b: Seq<char>,
    v: Seq<char>,
    ctx: Map<Seq<char>, ContextValue>,
)
    requires
        dedup(slot_names(t)) == seq![a, b],
        context_text(ctx, a) is None,
        context_text(ctx, b) == Some(v),
    ensures
        base_fill(t, ctx) == replace_all(t, tag(b), v),
{
    let d = seq![a, b];
    assert(d[0] == a);
    assert(d.drop_first() =~= seq![b]);
    assert(seq![b][0] == b);
    assert(seq![b].drop_first() =~= Seq::<Seq<char>>::empty());
    law_fill_skips_slot_without_text(t, d, ctx);
    law_fill_replaces_slot_with_text(t, d.drop_first(), ctx, v);
    law_fill_nothing(replace_all(t, tag(b), v), ctx);
    assert(fill_each(t, d, ctx) == fill_each(t, seq![b], ctx));
}

proof fn lemma_inject_prefix_of_prefix(
    t: Seq<char>,
    a: Seq<Seq<char>>,
    ia: Seq<Seq<char>>,
    b: Seq<Seq<char>>,
    ib: Seq<Seq<char>>,
    m: int,
)
    requires
        0 <= m <= a.len(),
        a.len() == ia.len(),
    ensures
        inject_prefix(t, a + b, ia + ib, m) == inject_prefix(t, a, ia, m),
    decreases m,
{
    if m > 0 {
        lemma_inject_prefix_of_prefix(t, a, ia, b, ib, m - 1);
        assert((a + b)[m - 1] == a[m - 1]);
        assert((ia + ib)[m - 1] == ia[m - 1]);
    }
}

proof fn lemma_inject_prefix_compose(
    t: Seq<char>,
    a: Seq<Seq<char>>,
    ia: Seq<Seq<char>>,
    b: Seq<Seq<char>>,
    ib: Seq<Seq<char>>,
    n: int,
)
    requires
        a.len() == ia.len(),
        b.len() == ib.len(),
        0 <= n <= b.len(),
    ensures
        inject_prefix(t, a + b, ia + ib, a.len() + n) == ({
            let (c1, p1) = inject_prefix(t, a, ia, a.len() as int);
            let (c2, p2) = inject_prefix(c1, b, ib, n);
            (c2, p1 + p2)
        }),
    decreases n,
{
    let (c1, p1) = inject_prefix(t, a, ia, a.len() as int);
    if n == 0 {
        lemma_inject_prefix_of_prefix(t, a, ia, b, ib, a.len() as int);
        assert(p1 + Seq::<Seq<char>>::empty() =~= p1);
    } else {
        lemma_inject_prefix_compose(t, a, ia, b, ib, n - 1);
        assert((a + b)[a.len() + n - 1] == b[n - 1]);
        assert((ia + ib)[a.len() + n - 1] == ib[n - 1]);
        let (c2, p2) = inject_prefix(c1, b, ib, n - 1);
        let (next, appended) = injection_outcome(c2, b[n - 1], ib[n - 1]);
        match appended {
            Some(x) => {
                assert((p1 + p2).push(x) =~= p1 + p2.push(x));
            },
            None => {},
        }
    }
}

/// Injectors run in sequence, each on the template the earlier ones left:
/// running the injectors `a` and then `b` is running `a` on the template,
/// then `b` on what `a` left, with the appended parts of `a` before those of
/// `b`.
pub proof fn law_injectors_run_in_sequence(
    t: Seq<char>,
    a: Seq<Seq<char>>,
    ia: Seq<Seq<char>>,
    b: Seq<Seq<char>>,
    ib: Seq<Seq<char>>,
)
    requires
        a.len() == ia.len(),
        b.len() == ib.len(),
    ensures
        inject_prefix(t, a + b, ia + ib, (a + b).len() as int) == ({
            let (c1, p1) = inject_prefix(t, a, ia, a.len() as int);
            let (c2, p2) = inject_prefix(c1, b, ib, b.len() as int);
            (c2, p1 + p2)
        }),
{
    lemma_inject_prefix_compose(t, a, ia, b, ib, b.len() as int);
}

/// A later injector sees the template the earlier one left: when the first
/// text brings in the second slot, the second text fills it, though the
/// base prompt did not hold it.
pub proof fn law_later_injector_sees_earlier_text(
    t: Seq<char>,
    s1: Seq<char>,
    x: Seq<char>,
    s2: Seq<char>,
    y: Seq<char>,
    ctx: Map<Seq<char>, ContextValue>,
)
    requires
        contains_text(t, tag(s1)),
        contains_text(replace_all(t, tag(s1), x), tag(s2)),
    ensures
        assembled(t, seq![s1, s2], seq![x, y], ctx) == base_fill(
            replace_all(replace_all(t, tag(s1), x), tag(s2), y),
            ctx,
        ),
{
    let slots = seq![s1, s2];
    let injs = seq![x, y];
    assert(slots[0] == s1 && slots[1] == s2);
    assert(injs[0] == x && injs[1] == y);
    assert(inject_prefix(t, slots, injs, 0) == (t, Seq::<Seq<char>>::empty()));
    assert(inject_prefix(t, slots, injs, 1) == (replace_all(t, tag(s1), x), Seq::<Seq<char>>::empty()));
}

} // verus!
