use vstd::prelude::*;

use crate::json::run_end;
use crate::parser::{
    Input, class_accepts, expect_trail, pos_after, CharClass, ExpectChar, Reason, ResultOf,
    SimpleError, SimplePosition, TextInput,
};

verus! {

broadcast use {
    crate::parser::lemma_pos_after_index,
    crate::parser::lemma_pos_after_trans,
    crate::parser::lemma_pos_after_refl,
};

/// A parser built from the primitive combinators, as a value.
pub enum Rule {
    /// One character of a class.
    ExpectChar(CharClass),
    /// Nothing; always succeeds.
    Null,
    /// The first rule, then the second where the first ended.
    Concat(Box<Rule>, Box<Rule>),
    /// The first rule; where it fails, the second at the same position.
    OneOf(Box<Rule>, Box<Rule>),
    /// The rule once, then again as long as it succeeds and moves on.
    OneOrMore(Box<Rule>),
}

/// What a rule produced.
pub enum Parsed {
    Char(char),
    Unit,
    Pair(Box<Parsed>, Box<Parsed>),
    A(Box<Parsed>),
    B(Box<Parsed>),
    List(Vec<Parsed>),
}

/// The mathematical content of a `Parsed`.
pub enum ParsedModel {
    Char(char),
    Unit,
    Pair(Box<ParsedModel>, Box<ParsedModel>),
    A(Box<ParsedModel>),
    B(Box<ParsedModel>),
    List(Seq<ParsedModel>),
}

impl Parsed {
    pub open spec fn model(self) -> ParsedModel
        decreases self,
    {
        match self {
            Parsed::Char(c) => ParsedModel::Char(c),
            Parsed::Unit => ParsedModel::Unit,
            Parsed::Pair(a, b) => ParsedModel::Pair(Box::new(a.model()), Box::new(b.model())),
            Parsed::A(a) => ParsedModel::A(Box::new(a.model())),
            Parsed::B(b) => ParsedModel::B(Box::new(b.model())),
            Parsed::List(v) => ParsedModel::List(
                Seq::new(
                    v@.len(),
                    |i: int|
                        if 0 <= i < v@.len() {
                            v@[i].model()
                        } else {
                            ParsedModel::Unit
                        },
                ),
            ),
        }
    }
}

/// The models of the items of a list.
pub open spec fn list_model(v: Seq<Parsed>) -> Seq<ParsedModel> {
    v.map_values(|p: Parsed| p.model())
}

/// What `r` yields on the characters `s` from `i`, and where it ends.
pub open spec fn spec_run(r: Rule, s: Seq<char>, i: int) -> Option<(ParsedModel, int)>
    decreases r, 0int,
{
    match r {
        Rule::ExpectChar(cls) => if 0 <= i < s.len() && class_accepts(cls, s[i]) {
            Some((ParsedModel::Char(s[i]), i + 1))
        } else {
            None
        },
        Rule::Null => Some((ParsedModel::Unit, i)),
        Rule::Concat(a, b) => match spec_run(*a, s, i) {
            Some((x, j)) => match spec_run(*b, s, j) {
                Some((y, k)) => Some((ParsedModel::Pair(Box::new(x), Box::new(y)), k)),
                None => None,
            },
            None => None,
        },
        Rule::OneOf(a, b) => match spec_run(*a, s, i) {
            Some((x, j)) => Some((ParsedModel::A(Box::new(x)), j)),
            None => match spec_run(*b, s, i) {
                Some((y, k)) => Some((ParsedModel::B(Box::new(y)), k)),
                None => None,
            },
        },
        Rule::OneOrMore(p) => match spec_run(*p, s, i) {
            Some((x, j)) => {
                let rest = spec_repeat(*p, s, j);
                Some((ParsedModel::List(seq![x] + rest.0), rest.1))
            },
            None => None,
        },
    }
}

/// The items that `p` yields again and again from `i`, until it fails or stops moving.
pub open spec fn spec_repeat(p: Rule, s: Seq<char>, i: int) -> (Seq<ParsedModel>, int)
    decreases p, s.len() - i + 1,
{
    if 0 <= i <= s.len() {
        match spec_run(p, s, i) {
            Some((x, j)) => if i < j <= s.len() {
                let rest = spec_repeat(p, s, j);
                (seq![x] + rest.0, rest.1)
            } else {
                (Seq::empty(), i)
            },
            None => (Seq::empty(), i),
        }
    } else {
        (Seq::empty(), i)
    }
}

/// The trail of `r` failing at `p`: a sequence adds `Concat1` or `Concat2` to the trail of
/// the part that failed, an alternation adds `OneOf` to its second branch's trail (the
/// first one's is dropped), and a repetition adds `OneOrMore` to its first item's trail.
pub open spec fn spec_trail(r: Rule, s: Seq<char>, p: SimplePosition) -> Seq<
    (Option<SimplePosition>, Reason),
>
    decreases r,
{
    match r {
        Rule::ExpectChar(_) => expect_trail(s, p),
        Rule::Null => Seq::empty(),
        Rule::Concat(a, b) => match spec_run(*a, s, p.index as int) {
            None => spec_trail(*a, s, p).push((Some(p), Reason::Concat1)),
            Some((_, j)) => spec_trail(*b, s, pos_after(s, p, j)).push(
                (Some(p), Reason::Concat2),
            ),
        },
        Rule::OneOf(_, b) => spec_trail(*b, s, p).push((Some(p), Reason::OneOf)),
        Rule::OneOrMore(x) => spec_trail(*x, s, p).push((Some(p), Reason::OneOrMore)),
    }
}

impl Rule {
    /// Runs the rule at `current`. A failure of the first part of a sequence is tagged
    /// `Concat1`, of the second `Concat2`; an alternation keeps the second branch's trail
    /// and tags it `OneOf`; a repetition whose first attempt fails is tagged `OneOrMore`.
    pub fn parse(&self, input: &TextInput, current: SimplePosition) -> (r: ResultOf<Parsed>)
        requires
            input.wf(),
            input.valid_pos(current),
        ensures
            match spec_run(*self, input.text(), current.index as int) {
                Some((m, e)) => r matches Ok((o, p)) && o.model() == m && p.index == e
                    && current.index <= e && p == pos_after(input.text(), current, e)
                    && input.valid_pos(p),
                None => r matches Err(err) && err.trail() == spec_trail(
                    *self,
                    input.text(),
                    current,
                ),
            },
        decreases self,
    {
        match self {
            Rule::ExpectChar(cls) => {
                let (c, next) = (ExpectChar { class: *cls }).parse(input, current)?;
                Ok((Parsed::Char(c), next))
            },
            Rule::Null => Ok((Parsed::Unit, current)),
            Rule::Concat(a, b) => {
                let (x, mid) = match a.parse(input, current) {
                    Ok(v) => v,
                    Err(e) => { return Err(e.add_reason(Some(current), Reason::Concat1)); },
                };
                let (y, next) = match b.parse(input, mid) {
                    Ok(v) => v,
                    Err(e) => { return Err(e.add_reason(Some(current), Reason::Concat2)); },
                };
                Ok((Parsed::Pair(Box::new(x), Box::new(y)), next))
            },
            Rule::OneOf(a, b) => {
                if let Ok((x, next)) = a.parse(input, current) {
                    return Ok((Parsed::A(Box::new(x)), next));
                }
                match b.parse(input, current) {
                    Ok((y, next)) => Ok((Parsed::B(Box::new(y)), next)),
                    Err(e) => Err(e.add_reason(Some(current), Reason::OneOf)),
                }
            },
            Rule::OneOrMore(item) => {
                let ghost s = input.text();
                let (first, mut pos) = match item.parse(input, current) {
                    Ok(v) => v,
                    Err(e) => { return Err(e.add_reason(Some(current), Reason::OneOrMore)); },
                };
                let ghost start = pos.index as int;
                let mut list: Vec<Parsed> = Vec::new();
                list.push(first);
                assert(list_model(list@) =~= seq![first.model()]);
                loop
                    invariant
                        input.wf(),
                        *self == Rule::OneOrMore(*item),
                        s == input.text(),
                        input.valid_pos(current),
                        input.valid_pos(pos),
                        current.index <= pos.index,
                        pos == pos_after(s, current, pos.index as int),
                        spec_run(**item, s, current.index as int) matches Some((x, j)) && j == start
                            && seq![x] + spec_repeat(**item, s, j).0 == list_model(list@)
                            + spec_repeat(**item, s, pos.index as int).0
                            && spec_repeat(**item, s, j).1 == spec_repeat(
                            **item,
                            s,
                            pos.index as int,
                        ).1,
                    decreases s.len() - pos.index,
                {
                    match item.parse(input, pos) {
                        Ok((x, next)) => {
                            if next.index > pos.index {
                                let ghost before = list@;
                                list.push(x);
                                assert(list_model(list@) =~= list_model(before).push(x.model()));
                                assert(list_model(list@) + spec_repeat(**item, s, next.index as int).0
                                    =~= list_model(before) + spec_repeat(
                                    **item,
                                    s,
                                    pos.index as int,
                                ).0);
                                pos = next;
                            } else {
                                assert(list_model(list@) + spec_repeat(**item, s, pos.index as int).0
                                    =~= list_model(list@));
                                let ghost lm = list_model(list@);
                                let out = Parsed::List(list);
                                assert(out.model() matches ParsedModel::List(ms) && ms =~= lm);
                                return Ok((out, pos));
                            }
                        },
                        Err(_) => {
                            assert(list_model(list@) + spec_repeat(**item, s, pos.index as int).0
                                =~= list_model(list@));
                            let ghost lm = list_model(list@);
                            let out = Parsed::List(list);
                            assert(out.model() matches ParsedModel::List(ms) && ms =~= lm);
                            return Ok((out, pos));
                        },
                    }
                }
            },
        }
    }
}

/// The rule, or nothing.
pub fn zero_or_one(p: Rule) -> (r: Rule)
    ensures
        r == Rule::OneOf(Box::new(p), Box::new(Rule::Null)),
{
    Rule::OneOf(Box::new(p), Box::new(Rule::Null))
}

/// The rule any number of times, none included.
pub fn zero_or_more(p: Rule) -> (r: Rule)
    ensures
        r == Rule::OneOf(Box::new(Rule::OneOrMore(Box::new(p))), Box::new(Rule::Null)),
{
    Rule::OneOf(Box::new(Rule::OneOrMore(Box::new(p))), Box::new(Rule::Null))
}

/// Repeating a one-character rule from `i` ends where the run of its class ends.
pub proof fn lemma_repeat_class(cls: CharClass, s: Seq<char>, i: int)
    requires
        0 <= i <= s.len(),
    ensures
        spec_repeat(Rule::ExpectChar(cls), s, i).1 == run_end(s, cls, i),
    decreases s.len() - i,
{
    let r = Rule::ExpectChar(cls);
    if i < s.len() && class_accepts(cls, s[i]) {
        assert(spec_run(r, s, i) == Some((ParsedModel::Char(s[i]), i + 1)));
        lemma_repeat_class(cls, s, i + 1);
        assert(run_end(s, cls, i) == run_end(s, cls, i + 1));
    } else {
        assert(spec_run(r, s, i) is None);
        assert(run_end(s, cls, i) == i);
    }
}

/// A one-character rule repeated any number of times never fails, and ends where the
/// run of its class ends: the grammar's runs of whitespace and of digits are this rule.
pub proof fn law_repeated_class_is_run(cls: CharClass, s: Seq<char>, i: int)
    requires
        0 <= i <= s.len(),
    ensures
        spec_run(
            Rule::OneOf(
                Box::new(Rule::OneOrMore(Box::new(Rule::ExpectChar(cls)))),
                Box::new(Rule::Null),
            ),
            s,
            i,
        ) matches Some((_, e)) && e == run_end(s, cls, i),
{
    let r = Rule::ExpectChar(cls);
    let many = Rule::OneOrMore(Box::new(r));
    if i < s.len() && class_accepts(cls, s[i]) {
        assert(spec_run(r, s, i) == Some((ParsedModel::Char(s[i]), i + 1)));
        lemma_repeat_class(cls, s, i + 1);
        assert(run_end(s, cls, i) == run_end(s, cls, i + 1));
        assert(spec_run(many, s, i) matches Some((_, e)) && e == run_end(s, cls, i));
        assert(spec_run(Rule::OneOf(Box::new(many), Box::new(Rule::Null)), s, i) matches Some((_, e))
            && e == run_end(s, cls, i));
    } else {
        assert(spec_run(r, s, i) is None);
        assert(spec_run(many, s, i) is None);
        assert(run_end(s, cls, i) == i);
        assert(spec_run(Rule::Null, s, i) == Some((ParsedModel::Unit, i)));
        assert(spec_run(Rule::OneOf(Box::new(many), Box::new(Rule::Null)), s, i) matches Some((_, e))
            && e == i);
    }
}

} // verus!
