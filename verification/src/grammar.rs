//! The string-rewriting grammar: a mapping from single symbols to
//! replacement strings.  One generation pass rewrites every symbol of
//! the input independently; unmapped symbols are emitted unchanged.

use vstd::prelude::*;
use vstd::string::{StrSliceExecFns, StringExecFns};

verus! {

/// Rule table of a string-rewriting grammar.  Built once at fractal
/// setup, immutable afterwards.
pub struct LSystem {
    rules: Vec<(char, String)>,
}

/// The mapping that an association list stands for; later entries win.
pub open spec fn assoc_map(s: Seq<(char, String)>) -> Map<char, Seq<char>>
    decreases s.len(),
{
    if s.len() == 0 {
        Map::empty()
    } else {
        assoc_map(s.drop_last()).insert(s.last().0, s.last().1@)
    }
}

/// No symbol appears twice in the table.
pub open spec fn keys_unique(s: Seq<(char, String)>) -> bool {
    forall|i: int, j: int| 0 <= i < j < s.len() ==> s[i].0 != s[j].0
}

/// What one symbol becomes: its replacement if a rule maps it, else itself.
pub open spec fn expand_sym(rules: Map<char, Seq<char>>, ch: char) -> Seq<char> {
    if rules.dom().contains(ch) {
        rules[ch]
    } else {
        seq![ch]
    }
}

/// One full rewriting pass over a symbol sequence.
pub open spec fn expand(rules: Map<char, Seq<char>>, s: Seq<char>) -> Seq<char>
    decreases s.len(),
{
    if s.len() == 0 {
        Seq::empty()
    } else {
        expand_sym(rules, s[0]) + expand(rules, s.drop_first())
    }
}

impl View for LSystem {
    type V = Map<char, Seq<char>>;

    closed spec fn view(&self) -> Map<char, Seq<char>> {
        assoc_map(self.rules@)
    }
}

impl LSystem {
    /// The internal table never maps one symbol twice.
    pub closed spec fn wf(&self) -> bool {
        keys_unique(self.rules@)
    }

    /// A grammar with no rules.
    pub fn new() -> (g: LSystem)
        ensures
            g.wf(),
            g@ == Map::<char, Seq<char>>::empty(),
    {
        LSystem { rules: Vec::new() }
    }

    /// Add (or overwrite) the rule that maps `character` to `becomes`.
    pub fn add_rule(&mut self, character: char, becomes: String)
        requires
            old(self).wf(),
        ensures
            final(self).wf(),
            final(self)@ == old(self)@.insert(character, becomes@),
    {
        let n = self.rules.len();
        let mut j: usize = 0;
        while j < n
            invariant
                self.wf(),
                self.rules@ == old(self).rules@,
                n == self.rules@.len(),
                j <= n,
                forall|k: int| 0 <= k < j ==> self.rules@[k].0 != character,
            decreases n - j,
        {
            if self.rules[j].0 == character {
                proof {
                    lemma_assoc_update_one(self.rules@, j as int, character, becomes);
                }
                let ghost prior = self.rules@;
                self.rules.set(j, (character, becomes));
                proof {
                    assert forall|p: int, q: int|
                        0 <= p < q < self.rules@.len() implies self.rules@[p].0
                        != self.rules@[q].0 by {
                        assert(prior[p].0 != prior[q].0);
                        assert(self.rules@[p].0 == prior[p].0);
                        assert(self.rules@[q].0 == prior[q].0);
                    }
                }
                return;
            }
            j = j + 1;
        }
        proof {
            assert(self.rules@.push((character, becomes)).drop_last() =~= self.rules@);
        }
        self.rules.push((character, becomes));
    }

    /// Find the replacement mapped to a symbol, if any.
    fn lookup(&self, ch: char) -> (r: Option<&String>)
        requires
            self.wf(),
        ensures
            match r {
                Some(rep) => self@.dom().contains(ch) && rep@ == self@[ch],
                None => !self@.dom().contains(ch),
            },
    {
        let n = self.rules.len();
        let mut j: usize = 0;
        while j < n
            invariant
                self.wf(),
                n == self.rules@.len(),
                j <= n,
                forall|k: int| 0 <= k < j ==> self.rules@[k].0 != ch,
            decreases n - j,
        {
            let pair = &self.rules[j];
            if pair.0 == ch {
                proof {
                    lemma_assoc_found(self.rules@, j as int);
                }
                return Some(&pair.1);
            }
            j = j + 1;
        }
        proof {
            lemma_assoc_absent(self.rules@, ch);
        }
        None
    }

    /// One rewriting pass: every symbol of `input` is replaced by what
    /// the rule table maps it to, in place and in order.
    pub fn generate(&self, input: String) -> (output: String)
        requires
            self.wf(),
        ensures
            output@ == expand(self@, input@),
    {
        let mut output = String::new();
        let n = input.as_str().unicode_len();
        let mut i: usize = 0;
        while i < n
            invariant
                self.wf(),
                n == input@.len(),
                i <= n,
                output@ == expand(self@, input@.subrange(0, i as int)),
            decreases n - i,
        {
            let ch = input.as_str().get_char(i);
            proof {
                lemma_expand_snoc(self@, input@.subrange(0, i as int), ch);
                assert(input@.subrange(0, i as int).push(ch)
                    =~= input@.subrange(0, i + 1 as int));
            }
            match self.lookup(ch) {
                Some(rep) => {
                    output.append(rep.as_str());
                },
                None => {
                    let piece = input.as_str().substring_char(i, i + 1);
                    proof {
                        assert(piece@ =~= seq![ch]);
                    }
                    output.append(piece);
                },
            }
            i = i + 1;
        }
        proof {
            assert(input@.subrange(0, n as int) =~= input@);
        }
        output
    }
}

proof fn lemma_assoc_found(s: Seq<(char, String)>, i: int)
    requires
        keys_unique(s),
        0 <= i < s.len(),
    ensures
        assoc_map(s).dom().contains(s[i].0),
        assoc_map(s)[s[i].0] == s[i].1@,
    decreases s.len(),
{
    if i < s.len() - 1 {
        lemma_assoc_found(s.drop_last(), i);
    }
}

proof fn lemma_assoc_absent(s: Seq<(char, String)>, ch: char)
    requires
        forall|i: int| 0 <= i < s.len() ==> s[i].0 != ch,
    ensures
        !assoc_map(s).dom().contains(ch),
    decreases s.len(),
{
    if s.len() > 0 {
        lemma_assoc_absent(s.drop_last(), ch);
    }
}

/// Overwriting the entry that already holds a key updates the mapping
/// exactly as an insert does.
proof fn lemma_assoc_update_one(s: Seq<(char, String)>, i: int, ch: char, b: String)
    requires
        keys_unique(s),
        0 <= i < s.len(),
        s[i].0 == ch,
    ensures
        assoc_map(s.update(i, (ch, b))) == assoc_map(s).insert(ch, b@),
    decreases s.len(),
{
    let su = s.update(i, (ch, b));
    if i == s.len() - 1 {
        assert(su.drop_last() =~= s.drop_last());
        assert(assoc_map(su) == assoc_map(s.drop_last()).insert(ch, b@));
        assert(assoc_map(s).insert(ch, b@) == assoc_map(s.drop_last()).insert(ch, s[i].1@).insert(
            ch,
            b@,
        ));
        assert(assoc_map(s.drop_last()).insert(ch, s[i].1@).insert(ch, b@) =~= assoc_map(
            s.drop_last(),
        ).insert(ch, b@));
    } else {
        assert(su.drop_last() =~= s.drop_last().update(i, (ch, b)));
        lemma_assoc_update_one(s.drop_last(), i, ch, b);
        assert(su.last() == s.last());
        assert(s.last().0 != ch);
        assert(assoc_map(su) == assoc_map(s.drop_last()).insert(ch, b@).insert(
            s.last().0,
            s.last().1@,
        ));
        assert(assoc_map(s.drop_last()).insert(ch, b@).insert(s.last().0, s.last().1@)
            =~= assoc_map(s.drop_last()).insert(s.last().0, s.last().1@).insert(ch, b@));
    }
}

/// Rewriting one more symbol appends that symbol's expansion.
proof fn lemma_expand_snoc(rules: Map<char, Seq<char>>, t: Seq<char>, ch: char)
    ensures
        expand(rules, t.push(ch)) == expand(rules, t) + expand_sym(rules, ch),
    decreases t.len(),
{
    if t.len() == 0 {
        let single = t.push(ch);
        assert(single[0] == ch);
        assert(single.drop_first() =~= Seq::<char>::empty());
        assert(expand(rules, Seq::<char>::empty()) == Seq::<char>::empty());
        assert(expand(rules, single) == expand_sym(rules, ch) + Seq::<char>::empty());
        assert(expand_sym(rules, ch) + Seq::<char>::empty() =~= expand_sym(rules, ch));
        assert(expand(rules, t) == Seq::<char>::empty());
        assert(Seq::<char>::empty() + expand_sym(rules, ch) =~= expand_sym(rules, ch));
    } else {
        assert(t.push(ch).drop_first() =~= t.drop_first().push(ch));
        lemma_expand_snoc(rules, t.drop_first(), ch);
        assert(t.push(ch)[0] == t[0]);
        assert(expand_sym(rules, t[0]) + (expand(rules, t.drop_first()) + expand_sym(rules, ch))
            =~= (expand_sym(rules, t[0]) + expand(rules, t.drop_first())) + expand_sym(rules, ch));
    }
}

/// Grammar expansion never shortens its input while every replacement
/// string is non-empty: each symbol contributes at least one symbol.
pub proof fn lemma_expand_len_nondecreasing(rules: Map<char, Seq<char>>, s: Seq<char>)
    requires
        forall|ch: char| rules.dom().contains(ch) ==> rules[ch].len() >= 1,
    ensures
        expand(rules, s).len() >= s.len(),
    decreases s.len(),
{
    if s.len() > 0 {
        lemma_expand_len_nondecreasing(rules, s.drop_first());
    }
}

/// A grammar none of whose rules matches the input rewrites it to itself.
pub proof fn lemma_expand_identity(rules: Map<char, Seq<char>>, s: Seq<char>)
    requires
        forall|i: int| 0 <= i < s.len() ==> !rules.dom().contains(s[i]),
    ensures
        expand(rules, s) == s,
    decreases s.len(),
{
    if s.len() > 0 {
        lemma_expand_identity(rules, s.drop_first());
        assert(expand(rules, s) =~= s);
    } else {
        assert(expand(rules, s) =~= s);
    }
}

} // verus!
