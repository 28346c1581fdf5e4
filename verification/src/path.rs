//! Pure path-string processing: splitting into components, normalization
//! of `.` / `..` / redundant separators, canonicalization, and the
//! trimming step the mount dispatcher applies first.
//!
//! Paths are byte strings; `/` separates components. Canonicalization
//! never touches the filesystem.

use vstd::prelude::*;

verus! {

/// The path separator byte (`/`).
pub const SEP: u8 = 47;

/// The `.` byte.
pub const DOT: u8 = 46;

/// A path is absolute when it starts with a separator.
pub open spec fn is_abs(s: Seq<u8>) -> bool {
    s.len() > 0 && s[0] == SEP
}

/// Splitting a byte string at every separator, like `str::split('/')`:
/// the result always has at least one (possibly empty) component.
pub open spec fn split_comps(s: Seq<u8>) -> Seq<Seq<u8>>
    decreases s.len(),
{
    if s.len() == 0 {
        seq![Seq::<u8>::empty()]
    } else if s[0] == SEP {
        seq![Seq::<u8>::empty()] + split_comps(s.skip(1))
    } else {
        let rest = split_comps(s.skip(1));
        seq![seq![s[0]] + rest[0]] + rest.skip(1)
    }
}

/// One step of normalization: empty components and `.` are dropped,
/// `..` removes the last kept component (silently, when there is none),
/// and anything else is kept.
pub open spec fn norm_push(acc: Seq<Seq<u8>>, c: Seq<u8>) -> Seq<Seq<u8>> {
    if c.len() == 0 || c == seq![DOT] {
        acc
    } else if c == seq![DOT, DOT] {
        if acc.len() > 0 {
            acc.drop_last()
        } else {
            acc
        }
    } else {
        acc.push(c)
    }
}

/// Left fold of [`norm_push`] over a component list, starting from `acc`.
pub open spec fn norm_from(acc: Seq<Seq<u8>>, cs: Seq<Seq<u8>>) -> Seq<Seq<u8>>
    decreases cs.len(),
{
    if cs.len() == 0 {
        acc
    } else {
        norm_from(norm_push(acc, cs[0]), cs.skip(1))
    }
}

/// The normalized component list of a component list.
pub open spec fn norm_comps(cs: Seq<Seq<u8>>) -> Seq<Seq<u8>> {
    norm_from(Seq::empty(), cs)
}

/// Joining components with separators, without a leading separator.
pub open spec fn join_rel(cs: Seq<Seq<u8>>) -> Seq<u8>
    decreases cs.len(),
{
    if cs.len() == 0 {
        Seq::empty()
    } else if cs.len() == 1 {
        cs[0]
    } else {
        cs[0] + seq![SEP] + join_rel(cs.skip(1))
    }
}

/// A component that survives normalization: nonempty, without a
/// separator, and neither `.` nor `..`.
pub open spec fn valid_comp(c: Seq<u8>) -> bool {
    &&& c.len() > 0
    &&& forall|i: int| 0 <= i < c.len() ==> c[i] != SEP
    &&& c != seq![DOT]
    &&& c != seq![DOT, DOT]
}

/// All components of a list are valid.
pub open spec fn all_valid(cs: Seq<Seq<u8>>) -> bool {
    forall|i: int| 0 <= i < cs.len() ==> valid_comp(#[trigger] cs[i])
}

/// The canonical form of a path: its normalized components joined back,
/// keeping absoluteness. The canonical form of an absolute path with no
/// components left is `/`; of such a relative path, the empty string.
pub open spec fn canon_spec(s: Seq<u8>) -> Seq<u8> {
    let ns = norm_comps(split_comps(s));
    if is_abs(s) {
        seq![SEP] + join_rel(ns)
    } else {
        join_rel(ns)
    }
}

/// No component produced by splitting contains a separator.
pub proof fn lemma_split_no_sep(s: Seq<u8>)
    ensures
        forall|i: int, k: int|
            0 <= i < split_comps(s).len() && 0 <= k < split_comps(s)[i].len()
                ==> #[trigger] split_comps(s)[i][k] != SEP,
    decreases s.len(),
{
    if s.len() == 0 {
    } else if s[0] == SEP {
        lemma_split_no_sep(s.skip(1));
        let rest = split_comps(s.skip(1));
        assert forall|i: int, k: int|
            0 <= i < split_comps(s).len() && 0 <= k < split_comps(s)[i].len()
                implies #[trigger] split_comps(s)[i][k] != SEP by {
            if i > 0 {
                assert(split_comps(s)[i] == rest[i - 1]);
            }
        }
    } else {
        lemma_split_no_sep(s.skip(1));
        let rest = split_comps(s.skip(1));
        assert forall|i: int, k: int|
            0 <= i < split_comps(s).len() && 0 <= k < split_comps(s)[i].len()
                implies #[trigger] split_comps(s)[i][k] != SEP by {
            if i == 0 {
                if k == 0 {
                } else {
                    assert(split_comps(s)[0][k] == rest[0][k - 1]);
                }
            } else {
                assert(split_comps(s)[i] == rest[i]);
            }
        }
    }
}

/// Splitting a string whose first separator stands at `e`: the part
/// before `e` is the first component, the rest splits on its own.
pub proof fn lemma_split_step(s: Seq<u8>, e: int)
    requires
        0 <= e <= s.len(),
        forall|k: int| 0 <= k < e ==> s[k] != SEP,
        e < s.len() ==> s[e] == SEP,
    ensures
        e == s.len() ==> split_comps(s) == seq![s],
        e < s.len() ==> split_comps(s) == seq![s.take(e)] + split_comps(s.skip(e + 1)),
    decreases e,
{
    if e == 0 {
        if s.len() == 0 {
            assert(s =~= Seq::<u8>::empty());
            assert(split_comps(s) =~= seq![s]);
        } else {
            assert(s[0] == SEP);
            assert(s.take(0) =~= Seq::<u8>::empty());
            assert(split_comps(s) =~= seq![s.take(0)] + split_comps(s.skip(1)));
        }
    } else {
        assert(s[0] != SEP);
        lemma_split_step(s.skip(1), e - 1);
        let rest = split_comps(s.skip(1));
        if e == s.len() {
            assert(rest == seq![s.skip(1)]);
            assert(seq![s[0]] + rest[0] =~= s);
            assert(split_comps(s) =~= seq![s]);
        } else {
            assert(rest == seq![s.skip(1).take(e - 1)] + split_comps(s.skip(1).skip(e)));
            assert(seq![s[0]] + rest[0] =~= s.take(e));
            assert(s.skip(1).skip(e) =~= s.skip(e + 1));
            assert(rest.skip(1) =~= split_comps(s.skip(e + 1)));
            assert(split_comps(s) =~= seq![s.take(e)] + split_comps(s.skip(e + 1)));
        }
    }
}

/// Normalization starting from a valid accumulator keeps every component
/// valid, provided the input components hold no separator.
pub proof fn lemma_norm_from_valid(acc: Seq<Seq<u8>>, cs: Seq<Seq<u8>>)
    requires
        all_valid(acc),
        forall|i: int, k: int|
            0 <= i < cs.len() && 0 <= k < cs[i].len() ==> #[trigger] cs[i][k] != SEP,
    ensures
        all_valid(norm_from(acc, cs)),
    decreases cs.len(),
{
    if cs.len() == 0 {
    } else {
        let c = cs[0];
        let acc2 = norm_push(acc, c);
        assert(all_valid(acc2)) by {
            if c.len() == 0 || c == seq![DOT] {
            } else if c == seq![DOT, DOT] {
                if acc.len() > 0 {
                    assert(forall|i: int|
                        0 <= i < acc.drop_last().len() ==> acc.drop_last()[i] == acc[i]);
                }
            } else {
                assert(forall|k: int| 0 <= k < c.len() ==> c[k] != SEP) by {
                    assert(forall|k: int| 0 <= k < cs[0].len() ==> #[trigger] cs[0][k] != SEP);
                }
                assert(valid_comp(c));
                assert(forall|i: int|
                    0 <= i < acc.len() ==> acc.push(c)[i] == acc[i]);
            }
        }
        assert(forall|i: int, k: int|
            0 <= i < cs.skip(1).len() && 0 <= k < cs.skip(1)[i].len()
                ==> #[trigger] cs.skip(1)[i][k] != SEP) by {
            assert(forall|i: int|
                0 <= i < cs.skip(1).len() ==> cs.skip(1)[i] == cs[i + 1]);
        }
        lemma_norm_from_valid(acc2, cs.skip(1));
    }
}

/// Folding valid components from `acc` only appends them.
pub proof fn lemma_norm_from_of_valid(acc: Seq<Seq<u8>>, cs: Seq<Seq<u8>>)
    requires
        all_valid(cs),
    ensures
        norm_from(acc, cs) == acc + cs,
    decreases cs.len(),
{
    if cs.len() == 0 {
        assert(acc + cs =~= acc);
    } else {
        assert(valid_comp(cs[0]));
        assert(norm_push(acc, cs[0]) == acc.push(cs[0]));
        assert(all_valid(cs.skip(1))) by {
            assert(forall|i: int|
                0 <= i < cs.skip(1).len() ==> cs.skip(1)[i] == cs[i + 1]);
        }
        lemma_norm_from_of_valid(acc.push(cs[0]), cs.skip(1));
        assert(acc.push(cs[0]) + cs.skip(1) =~= acc + cs);
    }
}

/// Appending one more component to a nonempty list joins with one
/// separator at the end.
pub proof fn lemma_join_snoc(cs: Seq<Seq<u8>>, c: Seq<u8>)
    requires
        cs.len() >= 1,
    ensures
        join_rel(cs.push(c)) == join_rel(cs) + seq![SEP] + c,
    decreases cs.len(),
{
    if cs.len() == 1 {
        let ps = cs.push(c);
        assert(ps.len() == 2);
        assert(ps[0] == cs[0]);
        assert(ps.skip(1) =~= seq![c]);
        assert(join_rel(seq![c]) == c);
        assert(join_rel(ps) == ps[0] + seq![SEP] + join_rel(ps.skip(1)));
        assert(join_rel(cs.push(c)) =~= cs[0] + seq![SEP] + c);
    } else {
        lemma_join_snoc(cs.skip(1), c);
        assert(cs.push(c).skip(1) =~= cs.skip(1).push(c));
        assert(join_rel(cs.push(c)) =~= cs[0] + seq![SEP] + (join_rel(cs.skip(1)) + seq![SEP] + c));
        assert(cs[0] + seq![SEP] + (join_rel(cs.skip(1)) + seq![SEP] + c)
            =~= (cs[0] + seq![SEP] + join_rel(cs.skip(1))) + seq![SEP] + c);
    }
}

/// Splitting a join of valid components gives the components back.
pub proof fn lemma_split_join(cs: Seq<Seq<u8>>)
    requires
        cs.len() >= 1,
        all_valid(cs),
    ensures
        split_comps(join_rel(cs)) == cs,
    decreases cs.len(),
{
    if cs.len() == 1 {
        assert(valid_comp(cs[0]));
        lemma_split_step(cs[0], cs[0].len() as int);
        assert(split_comps(join_rel(cs)) =~= cs);
    } else {
        assert(valid_comp(cs[0]));
        let j = join_rel(cs);
        let e = cs[0].len() as int;
        assert(j =~= cs[0] + seq![SEP] + join_rel(cs.skip(1)));
        assert(forall|k: int| 0 <= k < e ==> j[k] != SEP);
        assert(j[e] == SEP);
        lemma_split_step(j, e);
        assert(j.take(e) =~= cs[0]);
        assert(j.skip(e + 1) =~= join_rel(cs.skip(1)));
        assert(all_valid(cs.skip(1))) by {
            assert(forall|i: int|
                0 <= i < cs.skip(1).len() ==> cs.skip(1)[i] == cs[i + 1]);
        }
        lemma_split_join(cs.skip(1));
        assert(split_comps(j) =~= seq![cs[0]] + cs.skip(1));
        assert(seq![cs[0]] + cs.skip(1) =~= cs);
    }
}

/// The normalized components of any path are all valid.
pub proof fn lemma_canon_valid(s: Seq<u8>)
    ensures
        all_valid(norm_comps(split_comps(s))),
{
    lemma_split_no_sep(s);
    lemma_norm_from_valid(Seq::empty(), split_comps(s));
}

/// Canonicalization is idempotent: canonicalizing a canonical form
/// changes nothing.
pub proof fn lemma_canon_idempotent(s: Seq<u8>)
    ensures
        canon_spec(canon_spec(s)) == canon_spec(s),
{
    let ns = norm_comps(split_comps(s));
    lemma_canon_valid(s);
    let c = canon_spec(s);
    if is_abs(s) {
        assert(c == seq![SEP] + join_rel(ns));
        assert(c[0] == SEP);
        assert(is_abs(c));
        assert(c.skip(1) =~= join_rel(ns));
        assert(split_comps(c) == seq![Seq::<u8>::empty()] + split_comps(join_rel(ns)));
        if ns.len() == 0 {
            assert(join_rel(ns) =~= Seq::<u8>::empty());
            assert(split_comps(join_rel(ns)) == seq![Seq::<u8>::empty()]);
            assert(norm_comps(split_comps(c)) =~= Seq::<Seq<u8>>::empty()) by {
                reveal_with_fuel(norm_from, 4);
                assert(split_comps(c) =~=
                    seq![Seq::<u8>::empty(), Seq::<u8>::empty()]);
            }
            assert(canon_spec(c) =~= c);
        } else {
            lemma_split_join(ns);
            assert(split_comps(c) == seq![Seq::<u8>::empty()] + ns);
            assert(norm_comps(split_comps(c)) == ns) by {
                assert((seq![Seq::<u8>::empty()] + ns)[0].len() == 0);
                assert(norm_push(Seq::empty(), (seq![Seq::<u8>::empty()] + ns)[0])
                    =~= Seq::<Seq<u8>>::empty());
                assert((seq![Seq::<u8>::empty()] + ns).skip(1) =~= ns);
                lemma_norm_from_of_valid(Seq::empty(), ns);
                assert(Seq::<Seq<u8>>::empty() + ns =~= ns);
            }
            assert(canon_spec(c) == c);
        }
    } else {
        assert(c == join_rel(ns));
        if ns.len() == 0 {
            assert(c =~= Seq::<u8>::empty());
            assert(!is_abs(c));
            assert(split_comps(c) == seq![Seq::<u8>::empty()]);
            assert(norm_comps(split_comps(c)) =~= Seq::<Seq<u8>>::empty()) by {
                reveal_with_fuel(norm_from, 3);
            }
            assert(canon_spec(c) =~= c);
        } else {
            assert(valid_comp(ns[0]));
            assert(c[0] != SEP) by {
                if ns.len() == 1 {
                } else {
                    assert(c =~= ns[0] + seq![SEP] + join_rel(ns.skip(1)));
                    assert(c[0] == ns[0][0]);
                }
            }
            assert(!is_abs(c));
            lemma_split_join(ns);
            lemma_norm_from_of_valid(Seq::empty(), ns);
            assert(Seq::<Seq<u8>>::empty() + ns =~= ns);
            assert(canon_spec(c) == c);
        }
    }
}

/// The sequence-of-sequences view of a list of byte-string components.
pub open spec fn cv(v: Seq<Vec<u8>>) -> Seq<Seq<u8>> {
    Seq::new(v.len(), |i: int| v[i]@)
}

/// Equality of two byte strings.
pub fn bytes_eq(a: &[u8], b: &[u8]) -> (r: bool)
    ensures
        r <==> a@ == b@,
{
    if a.len() != b.len() {
        assert(a@ != b@) by {
            assert(a@.len() != b@.len());
        }
        return false;
    }
    let mut k: usize = 0;
    while k < a.len()
        invariant
            k <= a@.len(),
            a@.len() == b@.len(),
            forall|j: int| 0 <= j < k ==> a@[j] == b@[j],
        decreases a@.len() - k,
    {
        if a[k] != b[k] {
            return false;
        }
        k = k + 1;
    }
    proof {
        assert(a@ =~= b@);
    }
    true
}

/// The position of the first separator at or after `from`, or the length
/// when there is none.
fn next_sep(path: &[u8], from: usize) -> (e: usize)
    requires
        from <= path@.len(),
    ensures
        from <= e <= path@.len(),
        forall|k: int| from <= k < e ==> path@[k] != SEP,
        e < path@.len() ==> path@[e as int] == SEP,
{
    let mut e = from;
    while e < path.len() && path[e] != SEP
        invariant
            from <= e <= path@.len(),
            forall|k: int| from <= k < e ==> path@[k] != SEP,
        decreases path@.len() - e,
    {
        e = e + 1;
    }
    e
}

/// Normalizes the components of `path` onto an existing component stack:
/// the result is the left fold of [`norm_push`] over the split of `path`,
/// started from `acc`.
pub fn normalize_onto(acc: Vec<Vec<u8>>, path: &[u8]) -> (r: Vec<Vec<u8>>)
    ensures
        cv(r@) == norm_from(cv(acc@), split_comps(path@)),
{
    let ghost acc0 = acc;
    let mut acc = acc;
    let mut i: usize = 0;
    proof {
        assert(path@.skip(0) =~= path@);
    }
    loop
        invariant_except_break
            i <= path@.len(),
            norm_from(cv(acc@), split_comps(path@.skip(i as int)))
                == norm_from(cv(acc0@), split_comps(path@)),
        ensures
            cv(acc@) == norm_from(cv(acc0@), split_comps(path@)),
        decreases path@.len() - i,
    {
        let e = next_sep(path, i);
        let ghost rem = path@.skip(i as int);
        let ghost comp = path@.subrange(i as int, e as int);
        let ghost accb = cv(acc@);
        proof {
            lemma_split_step(rem, e - i);
            assert(rem.take(e - i) =~= comp);
            if e == path@.len() {
                assert(rem =~= comp);
                assert(split_comps(rem) == seq![comp]);
            } else {
                assert(rem.skip(e - i + 1) =~= path@.skip(e + 1));
                assert(split_comps(rem) == seq![comp] + split_comps(path@.skip(e + 1)));
                assert((seq![comp] + split_comps(path@.skip(e + 1)))[0] == comp);
                assert((seq![comp] + split_comps(path@.skip(e + 1))).skip(1)
                    =~= split_comps(path@.skip(e + 1)));
            }
        }
        // apply norm_push(cv(acc@), comp) to the executable stack
        if e == i {
            // empty component: dropped
            proof {
                assert(comp.len() == 0);
            }
        } else if e - i == 1 && path[i] == DOT {
            // `.`: dropped
            proof {
                assert(comp =~= seq![DOT]);
            }
        } else if e - i == 2 && path[i] == DOT && path[i + 1] == DOT {
            // `..`: drop the last kept component, if any
            proof {
                assert(comp =~= seq![DOT, DOT]);
            }
            if acc.len() > 0 {
                let ghost before = cv(acc@);
                let _last = acc.pop();
                proof {
                    assert(cv(acc@) =~= before.drop_last());
                }
            }
        } else {
            proof {
                assert(comp.len() > 0);
                if comp == seq![DOT] {
                    assert(comp.len() == 1 && comp[0] == DOT);
                    assert(false);
                }
                if comp == seq![DOT, DOT] {
                    assert(comp.len() == 2 && comp[0] == DOT && comp[1] == DOT);
                    assert(false);
                }
            }
            let ghost before = cv(acc@);
            let part = vstd::slice::slice_to_vec(&path[i..e]);
            proof {
                assert(part@ =~= comp);
            }
            acc.push(part);
            proof {
                assert(cv(acc@) =~= before.push(comp));
            }
        }
        proof {
            assert(cv(acc@) == norm_push(accb, comp));
            if e == path@.len() {
                let np = norm_push(accb, comp);
                assert(seq![comp].skip(1) =~= Seq::<Seq<u8>>::empty());
                assert(norm_from(accb, seq![comp]) == norm_from(np, seq![comp].skip(1)));
                assert(norm_from(np, Seq::<Seq<u8>>::empty()) == np);
                assert(norm_from(accb, split_comps(rem)) == cv(acc@));
            }
        }
        if e == path.len() {
            break;
        }
        i = e + 1;
    }
    acc
}

/// Joins components with separators, with a leading separator when
/// `absolute` is set.
pub fn join_comps(comps: &Vec<Vec<u8>>, absolute: bool) -> (r: Vec<u8>)
    ensures
        absolute ==> r@ == seq![SEP] + join_rel(cv(comps@)),
        !absolute ==> r@ == join_rel(cv(comps@)),
{
    let ghost pre: Seq<u8> = if absolute {
        seq![SEP]
    } else {
        Seq::empty()
    };
    let mut buf: Vec<u8> = Vec::new();
    if absolute {
        buf.push(SEP);
    }
    proof {
        assert(cv(comps@).take(0) =~= Seq::<Seq<u8>>::empty());
        assert(buf@ =~= pre + join_rel(cv(comps@).take(0)));
    }
    let mut k: usize = 0;
    while k < comps.len()
        invariant
            k <= comps@.len(),
            absolute ==> pre == seq![SEP],
            !absolute ==> pre == Seq::<u8>::empty(),
            buf@ == pre + join_rel(cv(comps@).take(k as int)),
        decreases comps@.len() - k,
    {
        let ghost done = cv(comps@).take(k as int);
        let ghost c = cv(comps@)[k as int];
        if k > 0 {
            buf.push(SEP);
            proof {
                lemma_join_snoc(done, c);
            }
        } else {
            proof {
                assert(done.push(c) =~= seq![c]);
                assert(join_rel(seq![c]) == c);
            }
        }
        buf.extend_from_slice(comps[k].as_slice());
        proof {
            assert(cv(comps@).take(k + 1) =~= done.push(c));
            if k > 0 {
                assert(buf@ =~= pre + (join_rel(done) + seq![SEP] + c));
                assert(buf@ =~= pre + join_rel(cv(comps@).take(k + 1)));
            } else {
                assert(buf@ =~= pre + join_rel(cv(comps@).take(k + 1)));
            }
        }
        k = k + 1;
    }
    proof {
        assert(cv(comps@).take(comps@.len() as int) =~= cv(comps@));
    }
    buf
}

/// Canonicalizes a path: normalizes `.`, `..` and redundant separators,
/// keeping absoluteness. Pure string processing.
pub fn canonicalize(path: &[u8]) -> (r: Vec<u8>)
    ensures
        r@ == canon_spec(path@),
{
    let absolute = path.len() > 0 && path[0] == SEP;
    let empty_stack: Vec<Vec<u8>> = Vec::new();
    proof {
        assert(cv(empty_stack@) =~= Seq::<Seq<u8>>::empty());
    }
    let comps = normalize_onto(empty_stack, path);
    join_comps(&comps, absolute)
}

/// The trimming the mount dispatcher applies before matching: leading
/// and trailing separators are dropped, and so is a redundant leading
/// `./` marker, repeatedly.
pub open spec fn trim_spec(s: Seq<u8>) -> Seq<u8>
    decreases s.len(),
{
    if s.len() > 0 && s[0] == SEP {
        trim_spec(s.skip(1))
    } else if s.len() > 0 && s.last() == SEP {
        trim_spec(s.drop_last())
    } else if s.len() >= 2 && s[0] == DOT && s[1] == SEP {
        trim_spec(s.skip(2))
    } else {
        s
    }
}

/// Leading and trailing separators dropped, nothing else.
pub open spec fn strip_slashes(s: Seq<u8>) -> Seq<u8>
    decreases s.len(),
{
    if s.len() > 0 && s[0] == SEP {
        strip_slashes(s.skip(1))
    } else if s.len() > 0 && s.last() == SEP {
        strip_slashes(s.drop_last())
    } else {
        s
    }
}

/// Drops leading and trailing separators, like `str::trim_matches('/')`.
pub fn trim_slashes(path: &[u8]) -> (r: Vec<u8>)
    ensures
        r@ == strip_slashes(path@),
{
    let mut lo: usize = 0;
    let mut hi: usize = path.len();
    proof {
        assert(path@.subrange(0, path@.len() as int) =~= path@);
    }
    loop
        invariant_except_break
            lo <= hi <= path@.len(),
            strip_slashes(path@) == strip_slashes(path@.subrange(lo as int, hi as int)),
        ensures
            lo <= hi <= path@.len(),
            strip_slashes(path@) == path@.subrange(lo as int, hi as int),
        decreases hi - lo,
    {
        let ghost cur = path@.subrange(lo as int, hi as int);
        if lo < hi && path[lo] == SEP {
            proof {
                assert(cur.skip(1) =~= path@.subrange(lo + 1, hi as int));
            }
            lo = lo + 1;
        } else if lo < hi && path[hi - 1] == SEP {
            proof {
                assert(cur.drop_last() =~= path@.subrange(lo as int, hi - 1));
            }
            hi = hi - 1;
        } else {
            proof {
                assert(strip_slashes(cur) == cur) by {
                    if cur.len() > 0 {
                        assert(cur[0] == path@[lo as int]);
                        assert(cur.last() == path@[hi - 1]);
                    }
                }
            }
            break;
        }
    }
    let r = vstd::slice::slice_to_vec(&path[lo..hi]);
    proof {
        assert(r@ =~= path@.subrange(lo as int, hi as int));
    }
    r
}

/// The index of the last separator, or -1 when there is none.
pub open spec fn last_sep_idx(s: Seq<u8>) -> int
    decreases s.len(),
{
    if s.len() == 0 {
        -1
    } else if s.last() == SEP {
        s.len() - 1
    } else {
        last_sep_idx(s.drop_last())
    }
}

/// Finds the last separator, like `str::rfind('/')`.
pub fn rfind_sep(path: &[u8]) -> (r: Option<usize>)
    ensures
        match r {
            Some(i) => last_sep_idx(path@) == i && i < path@.len(),
            None => last_sep_idx(path@) == -1,
        },
{
    let mut hi: usize = path.len();
    proof {
        assert(path@.subrange(0, path@.len() as int) =~= path@);
    }
    loop
        invariant_except_break
            hi <= path@.len(),
            last_sep_idx(path@) == last_sep_idx(path@.subrange(0, hi as int)),
        ensures
            hi <= path@.len(),
            (hi == 0 && last_sep_idx(path@) == -1) || (hi >= 1 && path@[hi - 1] == SEP
                && last_sep_idx(path@) == hi - 1),
        decreases hi,
    {
        let ghost cur = path@.subrange(0, hi as int);
        if hi == 0 {
            proof {
                assert(cur.len() == 0);
            }
            break;
        }
        if path[hi - 1] == SEP {
            proof {
                assert(cur.last() == path@[hi - 1]);
                assert(last_sep_idx(cur) == hi - 1);
            }
            break;
        }
        proof {
            assert(cur.last() == path@[hi - 1]);
            assert(cur.drop_last() =~= path@.subrange(0, hi - 1));
        }
        hi = hi - 1;
    }
    if hi == 0 {
        None
    } else {
        Some(hi - 1)
    }
}

/// Trims a path as [`trim_spec`] describes.
pub fn trim_path(path: &[u8]) -> (r: Vec<u8>)
    ensures
        r@ == trim_spec(path@),
{
    let mut lo: usize = 0;
    let mut hi: usize = path.len();
    proof {
        assert(path@.subrange(0, path@.len() as int) =~= path@);
    }
    loop
        invariant_except_break
            lo <= hi <= path@.len(),
            trim_spec(path@) == trim_spec(path@.subrange(lo as int, hi as int)),
        ensures
            lo <= hi <= path@.len(),
            trim_spec(path@) == path@.subrange(lo as int, hi as int),
        decreases hi - lo,
    {
        let ghost cur = path@.subrange(lo as int, hi as int);
        if lo < hi && path[lo] == SEP {
            proof {
                assert(cur.skip(1) =~= path@.subrange(lo + 1, hi as int));
            }
            lo = lo + 1;
        } else if lo < hi && path[hi - 1] == SEP {
            proof {
                assert(cur.drop_last() =~= path@.subrange(lo as int, hi - 1));
            }
            hi = hi - 1;
        } else if hi - lo >= 2 && path[lo] == DOT && path[lo + 1] == SEP {
            proof {
                assert(cur.skip(2) =~= path@.subrange(lo + 2, hi as int));
            }
            lo = lo + 2;
        } else {
            proof {
                assert(trim_spec(cur) == cur) by {
                    assert(cur.len() == hi - lo);
                    if cur.len() > 0 {
                        assert(cur[0] == path@[lo as int]);
                        assert(cur.last() == path@[hi - 1]);
                    }
                    if cur.len() >= 2 {
                        assert(cur[1] == path@[lo + 1]);
                    }
                }
            }
            break;
        }
    }
    let r = vstd::slice::slice_to_vec(&path[lo..hi]);
    proof {
        assert(r@ =~= path@.subrange(lo as int, hi as int));
    }
    r
}

} // verus!
