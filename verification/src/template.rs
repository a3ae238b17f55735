//! Template lines and their expansion.
//!
//! A template line holds literal text and placeholder groups `{a|b|c}`. It
//! stands for every string that results from putting one alternative of
//! each group in the group's place. The strings are listed in mixed-radix
//! order: the leftmost group varies slowest, the rightmost fastest.

use crate::radix::{
    as_nats, combination, combinations, is_selection, lemma_combinations_distinct,
    lemma_combination_of_rank, lemma_nested_order, lemma_rank_bound, lemma_rank_of_combination,
    product, rank,
};
use crate::text::{
    chars_of, copy_range, find, index_of, is_whitespace, lemma_index_of, lemma_trim_end_keeps_first,
    lemma_trim_start, push_chars, rows, split, split_range, texts, trim, trim_bounds,
};
use vstd::prelude::*;

verus! {

/// A parsed template line: `literals[0]`, then one alternative of
/// `groups[0]`, then `literals[1]`, and so on up to the last literal.
pub struct Template {
    pub literals: Vec<Vec<char>>,
    pub groups: Vec<Vec<Vec<char>>>,
}

/// The mathematical content of a `Template`.
pub ghost struct TemplateView {
    pub literals: Seq<Seq<char>>,
    pub groups: Seq<Seq<Seq<char>>>,
}

/// The views of a list of groups.
pub open spec fn tables(v: Seq<Vec<Vec<char>>>) -> Seq<Seq<Seq<char>>> {
    v.map_values(|g: Vec<Vec<char>>| rows(g@))
}

impl View for Template {
    type V = TemplateView;

    open spec fn view(&self) -> TemplateView {
        TemplateView { literals: rows(self.literals@), groups: tables(self.groups@) }
    }
}

/// The alternative of a group that index `pick` stands for. A group without
/// alternatives puts nothing in its place.
pub open spec fn chosen(alternatives: Seq<Seq<char>>, pick: nat) -> Seq<char> {
    if pick < alternatives.len() {
        alternatives[pick as int]
    } else {
        Seq::empty()
    }
}

impl TemplateView {
    /// There is a literal before each group and one after the last.
    pub open spec fn wf(self) -> bool {
        self.literals.len() == self.groups.len() + 1
    }

    /// The number of alternatives of each group.
    pub open spec fn sizes(self) -> Seq<nat> {
        self.groups.map_values(|g: Seq<Seq<char>>| g.len())
    }

    /// The number of strings the template stands for.
    pub open spec fn count(self) -> nat {
        product(self.sizes())
    }

    /// The text up to and including the alternative of group `upto - 1`.
    pub open spec fn prefix(self, picks: Seq<nat>, upto: nat) -> Seq<char>
        decreases upto,
    {
        if upto == 0 {
            Seq::empty()
        } else {
            self.prefix(picks, (upto - 1) as nat) + self.literals[upto - 1] + chosen(
                self.groups[upto - 1],
                picks[upto - 1],
            )
        }
    }

    /// The string that results from the selection `picks`.
    pub open spec fn render(self, picks: Seq<nat>) -> Seq<char> {
        self.prefix(picks, self.groups.len()) + self.literals.last()
    }

    /// All strings the template stands for, in mixed-radix order.
    pub open spec fn expansion(self) -> Seq<Seq<char>> {
        Seq::new(self.count(), |n: int| self.render(combination(self.sizes(), n as nat)))
    }

    /// The strings that result from putting one alternative of each group in
    /// the group's place, for every way to select the alternatives.
    pub open spec fn substitutions(self) -> Set<Seq<char>> {
        Set::new(
            |s: Seq<char>|
                exists|picks: Seq<nat>|
                    is_selection(self.sizes(), picks) && s == #[trigger] self.render(picks),
        )
    }

    /// The template without its first literal and its first group.
    pub open spec fn rest(self) -> TemplateView {
        TemplateView { literals: self.literals.drop_first(), groups: self.groups.drop_first() }
    }

    /// Different selections give different strings.
    pub open spec fn unambiguous(self) -> bool {
        forall|p: Seq<nat>, q: Seq<nat>|
            is_selection(self.sizes(), p) && is_selection(self.sizes(), q) && p != q
                ==> #[trigger] self.render(p) != #[trigger] self.render(q)
    }
}

/// The template that a line denotes. A group runs from a `{` to the first
/// `}` after it, and its alternatives are the pieces between the `|` inside.
/// A `{` without a `}` after it ends the search: it and what follows are
/// literal text.
pub open spec fn parse_line(line: Seq<char>) -> TemplateView
    decreases line.len(),
{
    let open = index_of(line, '{');
    if open >= line.len() {
        TemplateView { literals: seq![line], groups: Seq::empty() }
    } else {
        let inner = line.skip((open + 1) as int);
        let close = index_of(inner, '}');
        if close >= inner.len() {
            TemplateView { literals: seq![line], groups: Seq::empty() }
        } else {
            let rest = parse_line(inner.skip((close + 1) as int));
            TemplateView {
                literals: seq![line.take(open as int)] + rest.literals,
                groups: seq![split(inner.take(close as int), '|')] + rest.groups,
            }
        }
    }
}

/// A line is a comment where `#` is the first character after its leading
/// whitespace.
pub open spec fn is_comment(line: Seq<char>) -> bool {
    trim(line).len() > 0 && trim(line)[0] == '#'
}

/// What a line expands to: nothing for a comment, else the expansion of its
/// template.
pub open spec fn expand_line(line: Seq<char>) -> Seq<Seq<char>> {
    if is_comment(line) {
        Seq::empty()
    } else {
        parse_line(line).expansion()
    }
}

/// What a text expands to: the expansions of its lines, one after another.
pub open spec fn expand_text(text: Seq<char>) -> Seq<Seq<char>> {
    split(text, '\n').map_values(|line: Seq<char>| expand_line(line)).flatten()
}

/// Splitting yields at least one piece.
pub proof fn lemma_split_nonempty(s: Seq<char>, sep: char)
    ensures
        split(s, sep).len() >= 1,
{
}

/// The template of a parsed line has a literal around every group, and
/// every group has at least one alternative.
pub proof fn lemma_parse_line_wf(line: Seq<char>)
    ensures
        parse_line(line).wf(),
        forall|i: int|
            0 <= i < parse_line(line).groups.len() ==> (#[trigger] parse_line(
                line,
            ).groups[i]).len() >= 1,
    decreases line.len(),
{
    let open = index_of(line, '{');
    if open < line.len() {
        let inner = line.skip((open + 1) as int);
        let close = index_of(inner, '}');
        if close < inner.len() {
            let rest = inner.skip((close + 1) as int);
            lemma_parse_line_wf(rest);
            lemma_split_nonempty(inner.take(close as int), '|');
            let t = parse_line(line);
            assert forall|i: int| 0 <= i < t.groups.len() implies (#[trigger] t.groups[i]).len()
                >= 1 by {
                if i > 0 {
                    assert(t.groups[i] == parse_line(rest).groups[i - 1]);
                }
            }
        }
    }
}

/// The expansion of a template lists the strings of its selections: each
/// entry is the string of a selection, and the string of every selection is
/// the entry at the selection's rank.
pub proof fn lemma_expansion_lists_selections(t: TemplateView)
    ensures
        t.expansion().len() == product(t.sizes()),
        forall|n: int|
            0 <= n < t.expansion().len() ==> is_selection(
                t.sizes(),
                combination(t.sizes(), n as nat),
            ) && #[trigger] t.expansion()[n] == t.render(combination(t.sizes(), n as nat)),
        forall|picks: Seq<nat>|
            is_selection(t.sizes(), picks) ==> #[trigger] rank(t.sizes(), picks)
                < t.expansion().len() && t.expansion()[rank(t.sizes(), picks) as int]
                == t.render(picks),
{
    assert forall|n: int| 0 <= n < t.expansion().len() implies is_selection(
        t.sizes(),
        combination(t.sizes(), n as nat),
    ) && #[trigger] t.expansion()[n] == t.render(combination(t.sizes(), n as nat)) by {
        lemma_rank_of_combination(t.sizes(), n as nat);
    }
    assert forall|picks: Seq<nat>| is_selection(t.sizes(), picks) implies #[trigger] rank(
        t.sizes(),
        picks,
    ) < t.expansion().len() && t.expansion()[rank(t.sizes(), picks) as int] == t.render(
        picks,
    ) by {
        lemma_rank_bound(t.sizes(), picks);
        lemma_combination_of_rank(t.sizes(), picks);
    }
}

/// The strings of the expansion are exactly the strings of the cartesian
/// product of the groups' alternatives, put into the literal text.
pub proof fn lemma_expansion_is_product(t: TemplateView)
    ensures
        t.expansion().to_set() == t.substitutions(),
{
    lemma_expansion_lists_selections(t);
    assert forall|s: Seq<char>| t.expansion().to_set().contains(s) implies t.substitutions().contains(
        s,
    ) by {
        let n = choose|n: int| 0 <= n < t.expansion().len() && t.expansion()[n] == s;
        let picks = combination(t.sizes(), n as nat);
        assert(is_selection(t.sizes(), picks) && s == t.render(picks));
    }
    assert forall|s: Seq<char>| t.substitutions().contains(s) implies t.expansion().to_set().contains(
        s,
    ) by {
        let picks = choose|picks: Seq<nat>|
            is_selection(t.sizes(), picks) && s == #[trigger] t.render(picks);
        let n = rank(t.sizes(), picks) as int;
        assert(t.expansion()[n] == s);
    }
    assert(t.expansion().to_set() =~= t.substitutions());
}

/// No selection is listed twice; so no string is listed twice where
/// different selections give different strings, and only there.
pub proof fn lemma_expansion_distinct(t: TemplateView)
    ensures
        forall|m: nat, n: nat|
            m < t.count() && n < t.count() && m != n ==> #[trigger] combination(t.sizes(), m)
                != #[trigger] combination(t.sizes(), n),
        t.unambiguous() <==> t.expansion().no_duplicates(),
{
    assert forall|m: nat, n: nat| m < t.count() && n < t.count() && m != n implies #[trigger] combination(
        t.sizes(),
        m,
    ) != #[trigger] combination(t.sizes(), n) by {
        lemma_combinations_distinct(t.sizes(), m, n);
    }
    if t.unambiguous() {
        assert forall|i: int, j: int|
            0 <= i < t.expansion().len() && 0 <= j < t.expansion().len() && i != j implies t.expansion()[i]
            != t.expansion()[j] by {
            let p = combination(t.sizes(), i as nat);
            let q = combination(t.sizes(), j as nat);
            lemma_rank_of_combination(t.sizes(), i as nat);
            lemma_rank_of_combination(t.sizes(), j as nat);
            lemma_combinations_distinct(t.sizes(), i as nat, j as nat);
            assert(t.render(p) != t.render(q));
        }
    }
    if t.expansion().no_duplicates() {
        assert forall|p: Seq<nat>, q: Seq<nat>|
            is_selection(t.sizes(), p) && is_selection(t.sizes(), q) && p != q implies #[trigger] t.render(
            p,
        ) != #[trigger] t.render(q) by {
            lemma_rank_bound(t.sizes(), p);
            lemma_rank_bound(t.sizes(), q);
            lemma_combination_of_rank(t.sizes(), p);
            lemma_combination_of_rank(t.sizes(), q);
            let i = rank(t.sizes(), p) as int;
            let j = rank(t.sizes(), q) as int;
            assert(i != j);
            assert(t.expansion()[i] == t.render(p));
            assert(t.expansion()[j] == t.render(q));
        }
    }
}

/// The text up to a group is the first literal, the alternative of the
/// first group, and the text up to that group in the rest of the template.
pub proof fn lemma_prefix_from_left(t: TemplateView, picks: Seq<nat>, upto: nat)
    requires
        t.wf(),
        picks.len() == t.groups.len(),
        1 <= upto <= t.groups.len(),
    ensures
        t.prefix(picks, upto) == t.literals[0] + chosen(t.groups[0], picks[0]) + t.rest().prefix(
            picks.drop_first(),
            (upto - 1) as nat,
        ),
    decreases upto,
{
    let head = t.literals[0] + chosen(t.groups[0], picks[0]);
    if upto == 1 {
        assert(t.prefix(picks, 0) =~= Seq::<char>::empty());
        assert(t.rest().prefix(picks.drop_first(), 0) =~= Seq::<char>::empty());
        assert(t.prefix(picks, 1) =~= head + Seq::<char>::empty());
    } else {
        lemma_prefix_from_left(t, picks, (upto - 1) as nat);
        let before = t.rest().prefix(picks.drop_first(), (upto - 2) as nat);
        let literal = t.literals[upto - 1];
        let alternative = chosen(t.groups[upto - 1], picks[upto - 1]);
        assert(t.rest().literals[upto - 2] == literal);
        assert(t.rest().groups[upto - 2] == t.groups[upto - 1]);
        assert(picks.drop_first()[upto - 2] == picks[upto - 1]);
        assert(t.rest().prefix(picks.drop_first(), (upto - 1) as nat) == before + literal
            + alternative);
        assert(t.prefix(picks, upto) == (head + before) + literal + alternative);
        assert((head + before) + literal + alternative =~= head + (before + literal
            + alternative));
    }
}

/// The strings come in the order of nested loops with the first group
/// outermost: the string number `outer * k + inner`, where `k` is the number
/// of strings of the rest of the template, is the first literal, then
/// alternative `outer` of the first group, then string number `inner` of
/// the rest.
pub proof fn lemma_expansion_nested(t: TemplateView, outer: nat, inner: nat)
    requires
        t.wf(),
        t.groups.len() > 0,
        outer < t.groups[0].len(),
        inner < t.rest().count(),
    ensures
        outer * t.rest().count() + inner < t.count(),
        t.expansion()[(outer * t.rest().count() + inner) as int] == t.literals[0]
            + t.groups[0][outer as int]
            + t.rest().expansion()[inner as int],
{
    let sizes = t.sizes();
    let rest = t.rest();
    assert(sizes.drop_first() =~= rest.sizes());
    assert(sizes[0] == t.groups[0].len());
    lemma_nested_order(sizes, outer, inner);
    let n = outer * rest.count() + inner;
    let picks = combination(sizes, n);
    let tail = combination(rest.sizes(), inner);
    assert(picks.drop_first() =~= tail);
    assert(picks[0] == outer);
    assert(rest.literals.last() == t.literals.last());
    let head = t.literals[0] + t.groups[0][outer as int];
    if t.groups.len() == 1 {
        assert(rest.prefix(tail, 0) =~= Seq::<char>::empty());
        assert(t.prefix(picks, 0) =~= Seq::<char>::empty());
        assert(t.prefix(picks, 1) =~= head);
        assert(t.render(picks) =~= head + rest.render(tail));
    } else {
        lemma_prefix_from_left(t, picks, t.groups.len());
        assert(t.render(picks) =~= head + rest.render(tail));
    }
}

/// A line that is no comment expands to as many strings as the product of
/// the sizes of its groups, none of which is empty, and these are the
/// strings of the cartesian product of the groups' alternatives. They are
/// pairwise different where different selections give different strings,
/// and only there.
pub proof fn lemma_expand_line_is_product(line: Seq<char>)
    requires
        !is_comment(line),
    ensures
        expand_line(line).len() == product(parse_line(line).sizes()),
        forall|i: int|
            0 <= i < parse_line(line).sizes().len() ==> #[trigger] parse_line(line).sizes()[i]
                >= 1,
        expand_line(line).to_set() == parse_line(line).substitutions(),
        parse_line(line).unambiguous() <==> expand_line(line).no_duplicates(),
{
    let t = parse_line(line);
    lemma_parse_line_wf(line);
    lemma_expansion_is_product(t);
    lemma_expansion_distinct(t);
    assert forall|i: int| 0 <= i < t.sizes().len() implies #[trigger] t.sizes()[i] >= 1 by {
        assert(t.groups[i].len() >= 1);
    }
}

/// Whether a line is a comment is decided by its first character that is
/// no whitespace: the line is a comment where that character is `#`. A
/// line of whitespace only is no comment.
pub proof fn lemma_comment(line: Seq<char>, at: int)
    requires
        0 <= at <= line.len(),
        forall|j: int| 0 <= j < at ==> is_whitespace(line[j]),
        at < line.len() ==> !is_whitespace(line[at]),
    ensures
        is_comment(line) <==> at < line.len() && line[at] == '#',
{
    lemma_trim_start(line, at);
    if at < line.len() {
        lemma_trim_end_keeps_first(line.skip(at));
    } else {
        assert(line.skip(at) =~= Seq::<char>::empty());
    }
}

/// A line without a group that is no comment expands to itself.
pub proof fn lemma_expand_plain_line(line: Seq<char>)
    requires
        !is_comment(line),
        parse_line(line).groups.len() == 0,
    ensures
        expand_line(line) == seq![line],
{
    let t = parse_line(line);
    assert(t.literals == seq![line]);
    assert(t.sizes() =~= Seq::<nat>::empty());
    assert(t.count() == 1);
    let picks = combination(t.sizes(), 0);
    assert(t.prefix(picks, 0) + line =~= line);
    assert(t.expansion() =~= seq![line]);
}

impl Template {
    /// The template of a line of characters.
    pub fn parse_chars(line: &Vec<char>) -> (t: Template)
        ensures
            t@ == parse_line(line@),
            t@.wf(),
    {
        let len = line.len();
        let mut literals: Vec<Vec<char>> = Vec::new();
        let mut groups: Vec<Vec<Vec<char>>> = Vec::new();
        let mut pos: usize = 0;
        let mut done: bool = false;
        proof {
            assert(line@.skip(0) =~= line@);
            assert(rows(literals@) + parse_line(line@).literals =~= parse_line(line@).literals);
            assert(tables(groups@) + parse_line(line@).groups =~= parse_line(line@).groups);
            lemma_parse_line_wf(line@);
        }
        while !done
            invariant
                pos <= len == line.len(),
                !done ==> parse_line(line@).literals == rows(literals@) + parse_line(
                    line@.skip(pos as int),
                ).literals,
                !done ==> parse_line(line@).groups == tables(groups@) + parse_line(
                    line@.skip(pos as int),
                ).groups,
                done ==> parse_line(line@).literals == rows(literals@),
                done ==> parse_line(line@).groups == tables(groups@),
            decreases len - pos + (if done { 0int } else { 1int }),
        {
            let ghost tail = line@.skip(pos as int);
            let ghost lits = rows(literals@);
            let ghost grps = tables(groups@);
            proof {
                assert(tail =~= line@.subrange(pos as int, len as int));
                lemma_index_of(tail, '{');
            }
            let open = find(line, '{', pos, len);
            let mut close: usize = len;
            if open < len {
                proof {
                    let inner = tail.skip(open - pos + 1);
                    assert(inner =~= line@.subrange(open + 1, len as int));
                    lemma_index_of(inner, '}');
                }
                close = find(line, '}', open + 1, len);
            }
            if close < len {
                let literal = copy_range(line, pos, open);
                let group = split_range(line, '|', open + 1, close);
                proof {
                    let inner = tail.skip(open - pos + 1);
                    let rest = inner.skip(close - open);
                    assert(rest =~= line@.skip(close + 1));
                    assert(literal@ =~= tail.take(open - pos));
                    assert(inner.take(close - open - 1) =~= line@.subrange(
                        open + 1,
                        close as int,
                    ));
                    assert(parse_line(tail).literals == seq![literal@] + parse_line(
                        rest,
                    ).literals);
                    assert(parse_line(tail).groups == seq![rows(group@)] + parse_line(
                        rest,
                    ).groups);
                }
                literals.push(literal);
                groups.push(group);
                proof {
                    let rest = line@.skip(close + 1);
                    assert(rows(literals@) =~= lits.push(literal@));
                    assert(tables(groups@) =~= grps.push(rows(group@)));
                    assert(lits + (seq![literal@] + parse_line(rest).literals) =~= lits.push(
                        literal@,
                    ) + parse_line(rest).literals);
                    assert(grps + (seq![rows(group@)] + parse_line(rest).groups) =~= grps.push(
                        rows(group@),
                    ) + parse_line(rest).groups);
                }
                pos = close + 1;
            } else {
                let literal = copy_range(line, pos, len);
                proof {
                    assert(literal@ =~= tail);
                    assert(parse_line(tail).literals == seq![tail]);
                    assert(parse_line(tail).groups == Seq::<Seq<Seq<char>>>::empty());
                }
                literals.push(literal);
                proof {
                    assert(rows(literals@) =~= lits + seq![tail]);
                    assert(grps + Seq::<Seq<Seq<char>>>::empty() =~= grps);
                }
                done = true;
            }
        }
        let t = Template { literals, groups };
        proof {
            assert(t@.literals == parse_line(line@).literals);
            assert(t@.groups == parse_line(line@).groups);
        }
        t
    }

    /// The template of a line.
    pub fn parse(line: &str) -> (t: Template)
        ensures
            t@ == parse_line(line@),
            t@.wf(),
    {
        let chars = chars_of(line);
        Template::parse_chars(&chars)
    }

    /// The number of alternatives of each group.
    pub fn sizes(&self) -> (sizes: Vec<usize>)
        ensures
            as_nats(sizes@) == self@.sizes(),
    {
        let mut sizes: Vec<usize> = Vec::new();
        let mut i: usize = 0;
        while i < self.groups.len()
            invariant
                i <= self.groups.len(),
                sizes.len() == i,
                forall|j: int| 0 <= j < i ==> sizes[j] == self.groups[j].len(),
            decreases self.groups.len() - i,
        {
            sizes.push(self.groups[i].len());
            i = i + 1;
        }
        proof {
            assert(as_nats(sizes@) =~= self@.sizes());
        }
        sizes
    }

    /// The string that results from putting alternative `picks[i]` of each
    /// group `i` in the group's place.
    pub fn render(&self, picks: &Vec<usize>) -> (out: String)
        requires
            self@.wf(),
            picks.len() == self.groups.len(),
        ensures
            out@ == self@.render(as_nats(picks@)),
    {
        let ghost t = self@;
        let ghost chosen_picks = as_nats(picks@);
        let mut out = String::new();
        let mut i: usize = 0;
        proof {
            assert(out@ =~= t.prefix(chosen_picks, 0));
        }
        while i < self.groups.len()
            invariant
                i <= self.groups.len(),
                t == self@,
                t.wf(),
                chosen_picks == as_nats(picks@),
                picks.len() == self.groups.len(),
                out@ == t.prefix(chosen_picks, i as nat),
            decreases self.groups.len() - i,
        {
            let ghost before = out@;
            push_chars(&mut out, &self.literals[i]);
            let group = &self.groups[i];
            let pick: usize = picks[i];
            proof {
                assert(t.literals[i as int] == self.literals[i as int]@);
                assert(t.groups[i as int] == rows(group@));
                assert(chosen_picks[i as int] == pick as nat);
            }
            if pick < group.len() {
                push_chars(&mut out, &group[pick]);
                proof {
                    assert(chosen(t.groups[i as int], pick as nat) == group[pick as int]@);
                }
            } else {
                proof {
                    assert(out@ + Seq::<char>::empty() =~= out@);
                }
            }
            i = i + 1;
        }
        proof {
            assert(t.literals.last() == self.literals[self.groups.len() as int]@);
        }
        push_chars(&mut out, &self.literals[self.groups.len()]);
        out
    }

    /// All strings the template stands for, in mixed-radix order.
    pub fn expand(&self) -> (out: Vec<String>)
        requires
            self@.wf(),
        ensures
            texts(out@) == self@.expansion(),
    {
        let sizes = self.sizes();
        let selections = combinations(&sizes);
        let mut out: Vec<String> = Vec::new();
        let mut n: usize = 0;
        while n < selections.len()
            invariant
                n <= selections.len(),
                self@.wf(),
                as_nats(sizes@) == self@.sizes(),
                selections.len() == self@.count(),
                forall|m: int|
                    0 <= m < selections.len() ==> as_nats(#[trigger] selections[m]@)
                        == combination(self@.sizes(), m as nat),
                out.len() == n,
                forall|m: int|
                    0 <= m < n ==> (#[trigger] out[m])@ == self@.render(
                        combination(self@.sizes(), m as nat),
                    ),
            decreases selections.len() - n,
        {
            let picks = &selections[n];
            proof {
                assert(as_nats(picks@).len() == combination(self@.sizes(), n as nat).len());
            }
            let one = self.render(picks);
            out.push(one);
            n = n + 1;
        }
        proof {
            assert(texts(out@) =~= self@.expansion());
        }
        out
    }
}

/// Whether the line is a comment.
pub fn is_comment_chars(line: &Vec<char>) -> (r: bool)
    ensures
        r == is_comment(line@),
{
    let (from, to) = trim_bounds(line);
    from < to && line[from] == '#'
}

/// What a line of characters expands to.
pub fn expand_chars(line: &Vec<char>) -> (out: Vec<String>)
    ensures
        texts(out@) == expand_line(line@),
{
    if is_comment_chars(line) {
        let out: Vec<String> = Vec::new();
        proof {
            assert(texts(out@) =~= Seq::<Seq<char>>::empty());
        }
        out
    } else {
        Template::parse_chars(line).expand()
    }
}

/// Expands one template line: a comment gives nothing, a line without a
/// group gives itself, and a line with groups gives one string for each
/// selection of alternatives, the leftmost group varying slowest.
pub fn expand(line: &str) -> (out: Vec<String>)
    ensures
        texts(out@) == expand_line(line@),
{
    let chars = chars_of(line);
    expand_chars(&chars)
}

/// Expands every line of `chars[from..to]`.
pub fn expand_range(chars: &Vec<char>, from: usize, to: usize) -> (out: Vec<String>)
    requires
        from <= to <= chars.len(),
    ensures
        texts(out@) == expand_text(chars@.subrange(from as int, to as int)),
{
    let lines = split_range(chars, '\n', from, to);
    let ghost all = split(chars@.subrange(from as int, to as int), '\n');
    let ghost each = all.map_values(|line: Seq<char>| expand_line(line));
    let mut out: Vec<String> = Vec::new();
    let mut i: usize = 0;
    proof {
        assert(each.take(0) =~= Seq::<Seq<Seq<char>>>::empty());
        assert(texts(out@) =~= each.take(0).flatten());
    }
    while i < lines.len()
        invariant
            i <= lines.len(),
            rows(lines@) == all,
            each == all.map_values(|line: Seq<char>| expand_line(line)),
            texts(out@) == each.take(i as int).flatten(),
        decreases lines.len() - i,
    {
        proof {
            assert(all[i as int] == lines[i as int]@);
        }
        let mut more = expand_chars(&lines[i]);
        let ghost before = texts(out@);
        let ghost added = texts(more@);
        out.append(&mut more);
        proof {
            assert(texts(out@) =~= before + added);
            assert(each.take(i + 1) =~= each.take(i as int).push(each[i as int]));
            each.take(i as int).lemma_flatten_push(each[i as int]);
        }
        i = i + 1;
    }
    proof {
        assert(each.take(lines.len() as int) =~= each);
    }
    out
}

/// Expands a text of template lines, separated by line feeds: the
/// expansions of the lines, one after another.
pub fn parse_feeds_var(s: &str) -> (feeds: Vec<String>)
    ensures
        texts(feeds@) == expand_text(s@),
{
    let chars = chars_of(s);
    proof {
        assert(chars@.subrange(0, chars.len() as int) =~= chars@);
    }
    expand_range(&chars, 0, chars.len())
}

} // verus!
