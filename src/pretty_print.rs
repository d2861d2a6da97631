use vstd::prelude::*;
use vstd::string::{StrSliceExecFns, StringExecFns};

verus! {

/// An edge symbol: a real input character, or the epsilon marker that
/// consumes no input.
#[derive(Clone, Copy, Debug, PartialEq, Eq, Structural)]
pub enum Symbol {
    Epsilon,
    Char(char),
}

/// The symbol carried by one edge.
#[derive(Clone, Copy, Debug, PartialEq, Eq, Structural)]
pub struct PrettyTransition(pub Symbol);

/// A state label: a set of string tags. The order of the tags in the vector
/// carries no meaning; two labels are the same when they hold the same tags.
#[derive(Clone, Debug)]
pub struct PrettyState(pub Vec<String>);

impl View for PrettyState {
    type V = Set<Seq<char>>;

    open spec fn view(&self) -> Set<Seq<char>> {
        Set::new(|t: Seq<char>| exists|i: int| 0 <= i < self.0@.len() && #[trigger] self.0@[i]@ == t)
    }
}

/// The tags joined in order, separated by a comma and a space.
pub open spec fn joined(tags: Seq<Seq<char>>) -> Seq<char>
    decreases tags.len(),
{
    if tags.len() == 0 {
        Seq::empty()
    } else if tags.len() == 1 {
        tags[0]
    } else {
        joined(tags.drop_last()) + seq![',', ' '] + tags.last()
    }
}

/// `a` comes before `b`: at the first position where they differ `a` holds
/// the smaller code point, or `a` is a proper prefix of `b`.
pub open spec fn str_lt(a: Seq<char>, b: Seq<char>) -> bool
    decreases a.len(),
{
    if a.len() == 0 {
        b.len() > 0
    } else if b.len() == 0 {
        false
    } else if a[0] != b[0] {
        (a[0] as int) < (b[0] as int)
    } else {
        str_lt(a.drop_first(), b.drop_first())
    }
}

pub proof fn lemma_str_lt_irreflexive(a: Seq<char>)
    ensures
        !str_lt(a, a),
    decreases a.len(),
{
    if a.len() > 0 {
        lemma_str_lt_irreflexive(a.drop_first());
    }
}

pub proof fn lemma_str_lt_transitive(a: Seq<char>, b: Seq<char>, c: Seq<char>)
    requires
        str_lt(a, b),
        str_lt(b, c),
    ensures
        str_lt(a, c),
    decreases a.len(),
{
    if a.len() > 0 && b.len() > 0 && c.len() > 0 && a[0] == b[0] && b[0] == c[0] {
        lemma_str_lt_transitive(a.drop_first(), b.drop_first(), c.drop_first());
    }
}

pub proof fn lemma_str_lt_total(a: Seq<char>, b: Seq<char>)
    requires
        a != b,
    ensures
        str_lt(a, b) || str_lt(b, a),
    decreases a.len(),
{
    if a.len() > 0 && b.len() > 0 && a[0] == b[0] {
        assert(a =~= seq![a[0]] + a.drop_first());
        assert(b =~= seq![b[0]] + b.drop_first());
        lemma_str_lt_total(a.drop_first(), b.drop_first());
    } else if a.len() == 0 && b.len() == 0 {
        assert(a =~= b);
    } else if a.len() > 0 && b.len() > 0 {
        assert((a[0] as int) != (b[0] as int));
    }
}

/// The tags are in strictly increasing order.
pub open spec fn sorted_tags(s: Seq<Seq<char>>) -> bool {
    forall|i: int, j: int| 0 <= i < j < s.len() ==> str_lt(#[trigger] s[i], #[trigger] s[j])
}

/// True iff `a` comes before `b` (see `str_lt`).
pub fn str_less(a: &String, b: &String) -> (r: bool)
    ensures
        r == str_lt(a@, b@),
{
    let sa = a.as_str();
    let sb = b.as_str();
    let la = sa.unicode_len();
    let lb = sb.unicode_len();
    let mut i: usize = 0;
    assert(a@.skip(0) =~= a@ && b@.skip(0) =~= b@);
    while i < la && i < lb
        invariant
            sa@ == a@,
            sb@ == b@,
            la == a@.len(),
            lb == b@.len(),
            i <= la,
            i <= lb,
            str_lt(a@, b@) == str_lt(a@.skip(i as int), b@.skip(i as int)),
        decreases la - i,
    {
        let ca = sa.get_char(i);
        let cb = sb.get_char(i);
        assert(a@.skip(i as int)[0] == ca && b@.skip(i as int)[0] == cb);
        if ca != cb {
            return (ca as u32) < (cb as u32);
        }
        assert(a@.skip(i as int).drop_first() =~= a@.skip(i + 1));
        assert(b@.skip(i as int).drop_first() =~= b@.skip(i + 1));
        i = i + 1;
    }
    i == la && i < lb
}

impl PrettyState {
    /// The tags as strings, in vector order.
    pub open spec fn tags(&self) -> Seq<Seq<char>> {
        self.0@.map_values(|t: String| t@)
    }

    /// The text shown for this label: its distinct tags in increasing
    /// order (see `str_lt`), separated by `, `.
    pub fn fmt(&self) -> (r: String)
        ensures
            exists|s: Seq<Seq<char>>| sorted_tags(s) && s.to_set() == self@ && r@ == joined(s),
    {
        let n = self.0.len();
        let mut r = String::new();
        let ghost mut out: Seq<Seq<char>> = Seq::empty();
        let mut last: Option<usize> = None;
        proof {
            self.tags().lemma_cardinality_of_set();
            assert(self.tags().to_set() =~= self@) by {
                assert forall|t: Seq<char>| self@.contains(t) implies self.tags().to_set().contains(t) by {
                    let i = choose|i: int| 0 <= i < self.0@.len() && #[trigger] self.0@[i]@ == t;
                    assert(self.tags()[i] == t);
                }
            }
        }
        loop
            invariant
                n == self.0@.len(),
                self@.finite(),
                self@.len() <= n,
                r@ == joined(out),
                sorted_tags(out),
                out.len() <= n,
                forall|x: int| 0 <= x < out.len() ==> self@.contains(#[trigger] out[x]),
                match last {
                    None => out.len() == 0,
                    Some(l) => l < n && out.len() > 0 && out.last() == self.0@[l as int]@,
                },
                forall|t: Seq<char>|
                    self@.contains(t) && out.len() > 0 && !str_lt(out.last(), t) ==> #[trigger] out.contains(t),
            ensures
                r@ == joined(out),
                sorted_tags(out),
                out.to_set() == self@,
            decreases n - out.len(),
        {
            let mut best: Option<usize> = None;
            let mut i: usize = 0;
            while i < n
                invariant
                    n == self.0@.len(),
                    i <= n,
                    match last {
                        None => true,
                        Some(l) => l < n,
                    },
                    match best {
                        None => forall|x: int| 0 <= x < i ==> !(match last {
                            None => true,
                            Some(l) => str_lt(self.0@[l as int]@, #[trigger] self.0@[x]@),
                        }),
                        Some(m) => m < n && (match last {
                            None => true,
                            Some(l) => str_lt(self.0@[l as int]@, self.0@[m as int]@),
                        }) && forall|x: int| 0 <= x < i && (match last {
                            None => true,
                            Some(l) => str_lt(self.0@[l as int]@, #[trigger] self.0@[x]@),
                        }) ==> !str_lt(self.0@[x]@, self.0@[m as int]@),
                    },
                decreases n - i,
            {
                let above = match last {
                    None => true,
                    Some(l) => str_less(&self.0[l], &self.0[i]),
                };
                if above {
                    match best {
                        None => {
                            best = Some(i);
                        },
                        Some(m) => {
                            if str_less(&self.0[i], &self.0[m]) {
                                proof {
                                    assert forall|x: int| 0 <= x < i && (match last {
                                        None => true,
                                        Some(l) => str_lt(self.0@[l as int]@, #[trigger] self.0@[x]@),
                                    }) implies !str_lt(self.0@[x]@, self.0@[i as int]@) by {
                                        if str_lt(self.0@[x]@, self.0@[i as int]@) {
                                            lemma_str_lt_transitive(self.0@[x]@, self.0@[i as int]@, self.0@[m as int]@);
                                        }
                                    }
                                }
                                best = Some(i);
                            }
                        },
                    }
                }
                proof {
                    if best == Some(i) {
                        lemma_str_lt_irreflexive(self.0@[i as int]@);
                    }
                }
                i = i + 1;
            }
            match best {
                None => {
                    proof {
                        assert forall|t: Seq<char>| self@.contains(t) implies out.to_set().contains(t) by {
                            let x = choose|x: int| 0 <= x < self.0@.len() && #[trigger] self.0@[x]@ == t;
                            match last {
                                None => {
                                    assert(false);
                                },
                                Some(l) => {
                                    if out.last() != t {
                                        lemma_str_lt_total(out.last(), t);
                                    }
                                    assert(out.contains(t));
                                },
                            }
                        }
                        assert(out.to_set() =~= self@);
                    }
                    break;
                },
                Some(m) => {
                    let ghost before = out;
                    let ghost nt = self.0@[m as int]@;
                    if last.is_some() {
                        r.append(", ");
                    }
                    r.append(self.0[m].as_str());
                    proof {
                        out = out.push(nt);
                        assert(out.drop_last() == before);
                        if before.len() == 0 {
                            assert(r@ =~= joined(out));
                        } else {
                            reveal_strlit(", ");
                            assert(r@ =~= joined(before) + seq![',', ' '] + nt);
                        }
                        assert(self@.contains(nt));
                        assert forall|x: int, y: int| 0 <= x < y < out.len() implies str_lt(#[trigger] out[x], #[trigger] out[y]) by {
                            if y == out.len() - 1 && x < y {
                                let l = last.unwrap();
                                if x < before.len() - 1 {
                                    assert(str_lt(before[x], before.last()));
                                    lemma_str_lt_transitive(out[x], before.last(), nt);
                                }
                            } else {
                                assert(out[x] == before[x] && out[y] == before[y]);
                            }
                        }
                        assert forall|t: Seq<char>| self@.contains(t) && out.len() > 0 && !str_lt(out.last(), t)
                            implies #[trigger] out.contains(t) by {
                            if t == nt {
                                assert(out[out.len() - 1] == t);
                            } else {
                                let x = choose|x: int| 0 <= x < self.0@.len() && #[trigger] self.0@[x]@ == t;
                                lemma_str_lt_total(nt, t);
                                match last {
                                    None => {},
                                    Some(l) => {
                                        if str_lt(before.last(), t) {
                                            assert(false);
                                        } else {
                                            assert(before.contains(t));
                                            let y = choose|y: int| 0 <= y < before.len() && before[y] == t;
                                            assert(out[y] == t);
                                        }
                                    },
                                }
                            }
                        }
                        assert forall|x: int, y: int| 0 <= x < out.len() && 0 <= y < out.len() && x != y implies out[x] != out[y] by {
                            if x < y {
                                lemma_str_lt_irreflexive(out[x]);
                            } else {
                                lemma_str_lt_irreflexive(out[y]);
                            }
                        }
                        out.unique_seq_to_set();
                        assert(out.to_set().subset_of(self@)) by {
                            assert forall|t: Seq<char>| out.to_set().contains(t) implies self@.contains(t) by {
                                let x = choose|x: int| 0 <= x < out.len() && out[x] == t;
                            }
                        }
                        vstd::set_lib::lemma_len_subset(out.to_set(), self@);
                    }
                    last = Some(m);
                },
            }
        }
        r
    }

    /// True iff `tag` is one of the label's tags.
    pub fn contains_tag(&self, tag: &String) -> (r: bool)
        ensures
            r == self@.contains(tag@),
    {
        let mut i: usize = 0;
        while i < self.0.len()
            invariant
                i <= self.0@.len(),
                forall|x: int| 0 <= x < i ==> self.0@[x]@ != tag@,
            decreases self.0@.len() - i,
        {
            if self.0[i] == *tag {
                return true;
            }
            i = i + 1;
        }
        proof {
            if self@.contains(tag@) {
                let x = choose|x: int| 0 <= x < self.0@.len() && #[trigger] self.0@[x]@ == tag@;
            }
        }
        false
    }

    /// True iff every tag of `self` is a tag of `other`.
    pub fn subset_of(&self, other: &PrettyState) -> (r: bool)
        ensures
            r == self@.subset_of(other@),
    {
        let mut i: usize = 0;
        while i < self.0.len()
            invariant
                i <= self.0@.len(),
                forall|x: int| 0 <= x < i ==> other@.contains(#[trigger] self.0@[x]@),
            decreases self.0@.len() - i,
        {
            if !other.contains_tag(&self.0[i]) {
                assert(self@.contains(self.0@[i as int]@));
                return false;
            }
            i = i + 1;
        }
        assert forall|t: Seq<char>| self@.contains(t) implies other@.contains(t) by {
            let x = choose|x: int| 0 <= x < self.0@.len() && #[trigger] self.0@[x]@ == t;
        }
        true
    }

    /// True iff the two labels hold the same tags, in whatever order.
    pub fn same_as(&self, other: &PrettyState) -> (r: bool)
        ensures
            r == (self@ == other@),
    {
        let r = self.subset_of(other) && other.subset_of(self);
        proof {
            if self@.subset_of(other@) && other@.subset_of(self@) {
                assert(self@ =~= other@);
            }
        }
        r
    }

    /// A copy of the label with the same tags in the same order.
    pub fn duplicate(&self) -> (r: PrettyState)
        ensures
            r.0@.len() == self.0@.len(),
            forall|i: int| 0 <= i < self.0@.len() ==> (#[trigger] r.0@[i])@ == self.0@[i]@,
            r@ == self@,
    {
        let mut v: Vec<String> = Vec::new();
        let mut i: usize = 0;
        while i < self.0.len()
            invariant
                i <= self.0@.len(),
                v@.len() == i,
                forall|x: int| 0 <= x < i ==> (#[trigger] v@[x])@ == self.0@[x]@,
            decreases self.0@.len() - i,
        {
            v.push(self.0[i].clone());
            i = i + 1;
        }
        let r = PrettyState(v);
        assert(r@ =~= self@) by {
            assert forall|t: Seq<char>| r@.contains(t) implies self@.contains(t) by {
                let x = choose|x: int| 0 <= x < r.0@.len() && #[trigger] r.0@[x]@ == t;
                assert(self.0@[x]@ == t);
            }
            assert forall|t: Seq<char>| self@.contains(t) implies r@.contains(t) by {
                let x = choose|x: int| 0 <= x < self.0@.len() && #[trigger] self.0@[x]@ == t;
                assert(r.0@[x]@ == t);
            }
        }
        r
    }
}

impl PrettyTransition {
    /// The text shown for this symbol: the character itself, or `ε`.
    pub fn fmt(&self) -> (r: String)
        ensures
            r@ == match self.0 {
                Symbol::Epsilon => seq!['\u{03B5}'],
                Symbol::Char(c) => seq![c],
            },
    {
        let mut r = String::new();
        let c = match self.0 {
            Symbol::Epsilon => '\u{03B5}',
            Symbol::Char(c) => c,
        };
        push_char(&mut r, c);
        r
    }
}

/// Relies on String::push: the character is appended at the end.
#[verifier::external_body]
fn push_char(s: &mut String, c: char)
    ensures
        final(s)@ == old(s)@.push(c),
{
    s.push(c)
}

} // verus!
