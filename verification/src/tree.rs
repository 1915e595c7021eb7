use vstd::prelude::*;

use crate::matcher::{matcher_lines, spec_is_ignored, is_ignored};
use ignore::gitignore::Gitignore;

verus! {

/// One filesystem object in a directory snapshot: its base name, whether it
/// is a directory, and (for directories) the snapshot of its children. A
/// subdirectory whose listing failed is represented with no children, so its
/// own line is still emitted while its subtree contributes nothing.
pub struct FsNode {
    pub name: String,
    pub is_dir: bool,
    pub children: Vec<FsNode>,
}

/// One record of the traversal's output: base name, distance from the scan
/// root (the root itself at depth 0), and the directory flag.
pub struct Entry {
    pub name: String,
    pub depth: usize,
    pub is_dir: bool,
}

/// Mathematical image of an `Entry`.
pub ghost struct EntryV {
    pub name: Seq<char>,
    pub depth: int,
    pub is_dir: bool,
}

impl View for Entry {
    type V = EntryV;

    open spec fn view(&self) -> EntryV {
        EntryV { name: self.name@, depth: self.depth as int, is_dir: self.is_dir }
    }
}

pub open spec fn entry_of(n: FsNode, depth: int) -> EntryV {
    EntryV { name: n.name@, depth, is_dir: n.is_dir }
}

/// `a` is at most `b` in code-point lexicographic order, which for UTF-8
/// strings coincides with byte order.
pub open spec fn lex_le(a: Seq<char>, b: Seq<char>) -> bool
    decreases a.len(),
{
    if a.len() == 0 {
        true
    } else if b.len() == 0 {
        false
    } else if (a[0] as u32) < (b[0] as u32) {
        true
    } else if (a[0] as u32) > (b[0] as u32) {
        false
    } else {
        lex_le(a.drop_first(), b.drop_first())
    }
}

/// Sibling render order: directories before files, and within the same kind
/// ascending name order.
pub open spec fn child_le(a: FsNode, b: FsNode) -> bool {
    if a.is_dir != b.is_dir {
        a.is_dir
    } else {
        lex_le(a.name@, b.name@)
    }
}

proof fn lemma_lex_skip(a: Seq<char>, b: Seq<char>, i: int)
    requires
        0 <= i <= a.len(),
        i <= b.len(),
        forall|j: int| 0 <= j < i ==> a[j] == b[j],
    ensures
        lex_le(a, b) == lex_le(a.skip(i), b.skip(i)),
    decreases i,
{
    if i > 0 {
        assert(a.len() > 0 && b.len() > 0);
        assert(a[0] == b[0]);
        assert(lex_le(a, b) == lex_le(a.drop_first(), b.drop_first()));
        lemma_lex_skip(a.drop_first(), b.drop_first(), i - 1);
        assert(a.drop_first().skip(i - 1) =~= a.skip(i));
        assert(b.drop_first().skip(i - 1) =~= b.skip(i));
    } else {
        assert(a.skip(0) =~= a);
        assert(b.skip(0) =~= b);
    }
}

/// Total: any two names compare one way or the other.
pub proof fn lemma_lex_total(a: Seq<char>, b: Seq<char>)
    ensures
        lex_le(a, b) || lex_le(b, a),
    decreases a.len(),
{
    if a.len() > 0 && b.len() > 0 && a[0] as u32 == b[0] as u32 {
        lemma_lex_total(a.drop_first(), b.drop_first());
    }
}

/// Transitive: names compare consistently along a chain.
pub proof fn lemma_lex_trans(a: Seq<char>, b: Seq<char>, c: Seq<char>)
    requires
        lex_le(a, b),
        lex_le(b, c),
    ensures
        lex_le(a, c),
    decreases a.len(),
{
    if a.len() > 0 && b.len() > 0 && c.len() > 0 {
        if a[0] as u32 == b[0] as u32 && b[0] as u32 == c[0] as u32 {
            lemma_lex_trans(a.drop_first(), b.drop_first(), c.drop_first());
        }
    }
}

/// `a` is at most `b` in code-point lexicographic order.
pub fn str_le(a: &str, b: &str) -> (r: bool)
    ensures
        r == lex_le(a@, b@),
{
    let an = a.unicode_len();
    let bn = b.unicode_len();
    let n = if an < bn {
        an
    } else {
        bn
    };
    let mut i: usize = 0;
    while i < n
        invariant
            i <= n,
            n <= a@.len(),
            n <= b@.len(),
            an == a@.len(),
            bn == b@.len(),
            n == if an < bn {
                an
            } else {
                bn
            },
            forall|j: int| 0 <= j < i ==> a@[j] == b@[j],
        decreases n - i,
    {
        let ca = a.get_char(i);
        let cb = b.get_char(i);
        if (ca as u32) < (cb as u32) {
            proof {
                lemma_lex_skip(a@, b@, i as int);
            }
            return true;
        }
        if (ca as u32) > (cb as u32) {
            proof {
                lemma_lex_skip(a@, b@, i as int);
            }
            return false;
        }
        proof {
            assert(ca as u32 == cb as u32);
            assert(ca == cb);
        }
        i = i + 1;
    }
    proof {
        lemma_lex_skip(a@, b@, i as int);
    }
    an <= bn
}

/// Sibling order on two snapshot nodes.
pub fn child_le_exec(a: &FsNode, b: &FsNode) -> (r: bool)
    ensures
        r == child_le(*a, *b),
{
    if a.is_dir != b.is_dir {
        a.is_dir
    } else {
        str_le(a.name.as_str(), b.name.as_str())
    }
}

/// Child `i` survives the filter when its path — the parent's components
/// extended with its name — is not ignored.
pub open spec fn keep_pred(
    children: Seq<FsNode>,
    rules: Seq<Seq<char>>,
    comps: Seq<Seq<char>>,
) -> spec_fn(int) -> bool {
    |i: int| !spec_is_ignored(rules, comps.push(children[i].name@), children[i].is_dir)
}

pub open spec fn idx_seq(n: int) -> Seq<int> {
    Seq::new(n as nat, |i: int| i)
}

/// Indices of the children that survive the ignore filter, in listing order.
pub open spec fn survivors(
    children: Seq<FsNode>,
    rules: Seq<Seq<char>>,
    comps: Seq<Seq<char>>,
) -> Seq<int> {
    idx_seq(children.len() as int).filter(keep_pred(children, rules, comps))
}

/// How many leading entries of `s` (indices into `children`) compare at or
/// before child `j`: the position a stable insertion sort puts `j` at.
pub open spec fn insert_pos(children: Seq<FsNode>, s: Seq<int>, j: int) -> int
    decreases s.len(),
{
    if s.len() == 0 {
        0
    } else if !child_le(children[s[0]], children[j]) {
        0
    } else {
        1 + insert_pos(children, s.drop_first(), j)
    }
}

/// Stable insertion sort of child indices by the sibling order.
pub open spec fn sort_idx(children: Seq<FsNode>, s: Seq<int>) -> Seq<int>
    decreases s.len(),
{
    if s.len() == 0 {
        s
    } else {
        let rest = sort_idx(children, s.drop_last());
        rest.insert(insert_pos(children, rest, s.last()), s.last())
    }
}

/// The order the traversal visits a directory's children: the surviving
/// indices, directories first, each group in ascending name order, equal
/// keys kept in listing order.
pub open spec fn child_order(
    children: Seq<FsNode>,
    rules: Seq<Seq<char>>,
    comps: Seq<Seq<char>>,
) -> Seq<int> {
    sort_idx(children, survivors(children, rules, comps))
}

/// The entries the traversal emits for the subtree rooted at `n`, whose path
/// from the scan root is `comps` (empty for the root itself, which is always
/// emitted): the node's own record, then — for a directory above the depth
/// limit (`limit == 0` meaning no limit) — the subtrees of its surviving
/// children in render order.
pub open spec fn spec_build(
    n: FsNode,
    comps: Seq<Seq<char>>,
    limit: int,
    rules: Seq<Seq<char>>,
) -> Seq<EntryV>
    decreases n, 0int,
{
    seq![entry_of(n, comps.len() as int)] + if n.is_dir && (limit == 0 || comps.len() < limit) {
        spec_build_list(n.children@, child_order(n.children@, rules, comps), comps, limit, rules)
    } else {
        Seq::empty()
    }
}

pub open spec fn spec_build_list(
    children: Seq<FsNode>,
    order: Seq<int>,
    comps: Seq<Seq<char>>,
    limit: int,
    rules: Seq<Seq<char>>,
) -> Seq<EntryV>
    decreases children, order.len(),
{
    if order.len() == 0 {
        Seq::empty()
    } else if 0 <= order[0] < children.len() {
        let c = children[order[0]];
        spec_build(c, comps.push(c.name@), limit, rules) + spec_build_list(
            children,
            order.drop_first(),
            comps,
            limit,
            rules,
        )
    } else {
        spec_build_list(children, order.drop_first(), comps, limit, rules)
    }
}

proof fn lemma_insert_pos_bounds(children: Seq<FsNode>, s: Seq<int>, j: int)
    ensures
        0 <= insert_pos(children, s, j) <= s.len(),
    decreases s.len(),
{
    if s.len() > 0 && child_le(children[s[0]], children[j]) {
        lemma_insert_pos_bounds(children, s.drop_first(), j);
    }
}

proof fn lemma_insert_pos_at(children: Seq<FsNode>, s: Seq<int>, j: int, p: int)
    requires
        0 <= p <= s.len(),
        forall|k: int| 0 <= k < p ==> child_le(children[#[trigger] s[k]], children[j]),
        p < s.len() ==> !child_le(children[s[p]], children[j]),
    ensures
        insert_pos(children, s, j) == p,
    decreases s.len(),
{
    if s.len() > 0 && p > 0 {
        assert(child_le(children[s[0]], children[j]));
        assert(forall|k: int|
            0 <= k < p - 1 ==> #[trigger] s.drop_first()[k] == s[k + 1]);
        lemma_insert_pos_at(children, s.drop_first(), j, p - 1);
    }
}

/// Concatenating two visit orders concatenates their outputs.
proof fn lemma_build_list_concat(
    children: Seq<FsNode>,
    o1: Seq<int>,
    o2: Seq<int>,
    comps: Seq<Seq<char>>,
    limit: int,
    rules: Seq<Seq<char>>,
)
    ensures
        spec_build_list(children, o1 + o2, comps, limit, rules) == spec_build_list(
            children,
            o1,
            comps,
            limit,
            rules,
        ) + spec_build_list(children, o2, comps, limit, rules),
    decreases o1.len(),
{
    if o1.len() == 0 {
        assert(o1 + o2 =~= o2);
        assert(spec_build_list(children, o1, comps, limit, rules) + spec_build_list(
            children,
            o2,
            comps,
            limit,
            rules,
        ) =~= spec_build_list(children, o2, comps, limit, rules));
    } else {
        assert((o1 + o2).drop_first() =~= o1.drop_first() + o2);
        assert((o1 + o2)[0] == o1[0]);
        assert((o1 + o2).len() > 0);
        lemma_build_list_concat(children, o1.drop_first(), o2, comps, limit, rules);
        if 0 <= o1[0] < children.len() {
            let c = children[o1[0]];
            let h = spec_build(c, comps.push(c.name@), limit, rules);
            assert(h + (spec_build_list(children, o1.drop_first(), comps, limit, rules)
                + spec_build_list(children, o2, comps, limit, rules)) =~= (h + spec_build_list(
                children,
                o1.drop_first(),
                comps,
                limit,
                rules,
            )) + spec_build_list(children, o2, comps, limit, rules));
        }
    }
}

/// Visiting one more child appends that child's subtree to the output.
proof fn lemma_build_list_snoc(
    children: Seq<FsNode>,
    order: Seq<int>,
    t: int,
    comps: Seq<Seq<char>>,
    limit: int,
    rules: Seq<Seq<char>>,
)
    requires
        0 <= t < order.len(),
        0 <= order[t] < children.len(),
    ensures
        spec_build_list(children, order.take(t + 1), comps, limit, rules) == spec_build_list(
            children,
            order.take(t),
            comps,
            limit,
            rules,
        ) + spec_build(
            children[order[t]],
            comps.push(children[order[t]].name@),
            limit,
            rules,
        ),
    decreases t,
{
    reveal_with_fuel(spec_build_list, 2);
    let single = seq![order[t]];
    assert(order.take(t + 1) =~= order.take(t) + single);
    lemma_build_list_concat(children, order.take(t), single, comps, limit, rules);
    let c = children[order[t]];
    assert(single.drop_first() =~= Seq::<int>::empty());
    assert(spec_build_list(children, single, comps, limit, rules) == spec_build(
        c,
        comps.push(c.name@),
        limit,
        rules,
    ) + Seq::<EntryV>::empty());
    assert(spec_build(c, comps.push(c.name@), limit, rules) + Seq::<EntryV>::empty()
        =~= spec_build(c, comps.push(c.name@), limit, rules));
}

/// The position the stable insertion sort gives child `j` among the already
/// placed indices `ord`.
fn find_insert_pos(children: &Vec<FsNode>, ord: &Vec<usize>, j: usize) -> (p: usize)
    requires
        (j as int) < children@.len(),
        forall|k: int| 0 <= k < ord@.len() ==> (#[trigger] ord@[k] as int) < children@.len(),
    ensures
        p <= ord@.len(),
        p as int == insert_pos(children@, ord@.map_values(|u: usize| u as int), j as int),
{
    let ghost m = ord@.map_values(|u: usize| u as int);
    let mut p: usize = 0;
    while p < ord.len()
        invariant
            p <= ord@.len(),
            (j as int) < children@.len(),
            m == ord@.map_values(|u: usize| u as int),
            forall|k: int| 0 <= k < ord@.len() ==> (#[trigger] ord@[k] as int) < children@.len(),
            forall|k: int| 0 <= k < p ==> child_le(children@[#[trigger] m[k]], children@[j as int]),
        decreases ord@.len() - p,
    {
        let le = child_le_exec(&children[ord[p]], &children[j]);
        if !le {
            proof {
                lemma_insert_pos_at(children@, m, j as int, p as int);
            }
            return p;
        }
        p = p + 1;
    }
    proof {
        lemma_insert_pos_at(children@, m, j as int, p as int);
    }
    p
}

/// Appends to `out` the records of the subtree rooted at `n`, which stands at
/// path `comps` below the scan root and has already been accepted; `comps`
/// is handed back unchanged.
fn build_into(
    n: &FsNode,
    comps: &mut Vec<String>,
    limit: usize,
    g: &Gitignore,
    out: &mut Vec<Entry>,
)
    ensures
        final(comps)@ == old(comps)@,
        final(out)@.map_values(|e: Entry| e@) == old(out)@.map_values(|e: Entry| e@) + spec_build(
            *n,
            old(comps)@.map_values(|c: String| c@),
            limit as int,
            matcher_lines(*g),
        ),
    decreases *n,
{
    let ghost rules = matcher_lines(*g);
    let ghost cs0 = old(comps)@.map_values(|c: String| c@);
    let ghost out0 = old(out)@.map_values(|e: Entry| e@);
    let ghost ev = entry_of(*n, cs0.len() as int);
    let depth = comps.len();
    out.push(Entry { name: n.name.clone(), depth, is_dir: n.is_dir });
    proof {
        assert(out@.map_values(|e: Entry| e@) =~= out0 + seq![ev]);
    }
    let descend = n.is_dir && (limit == 0 || depth < limit);
    if !descend {
        proof {
            assert(out0 + seq![ev] =~= out0 + spec_build(*n, cs0, limit as int, rules));
        }
        return ;
    }
    let ghost kp = keep_pred(n.children@, rules, cs0);
    let nc = n.children.len();
    let mut surv: Vec<usize> = Vec::new();
    let mut j: usize = 0;
    proof {
        reveal(Seq::filter);
        assert(idx_seq(0).filter(kp) =~= Seq::<int>::empty());
        assert(surv@.map_values(|u: usize| u as int) =~= Seq::<int>::empty());
    }
    while j < nc
        invariant
            j <= nc,
            nc == n.children@.len(),
            comps@ == old(comps)@,
            comps@.map_values(|c: String| c@) == cs0,
            rules == matcher_lines(*g),
            kp == keep_pred(n.children@, rules, cs0),
            surv@.map_values(|u: usize| u as int) == idx_seq(j as int).filter(kp),
            forall|k: int| 0 <= k < surv@.len() ==> (#[trigger] surv@[k] as int) < nc,
        decreases nc - j,
    {
        let c = &n.children[j];
        let ghost comps_snap = comps@;
        comps.push(c.name.clone());
        let ig = is_ignored(g, comps, c.is_dir);
        let _ = comps.pop();
        proof {
            assert(comps@ =~= comps_snap);
            assert(comps_snap.push(c.name).map_values(|c2: String| c2@) =~= cs0.push(
                n.children@[j as int].name@,
            ));
            assert(ig == !kp(j as int));
        }
        if !ig {
            surv.push(j);
        }
        proof {
            reveal(Seq::filter);
            let t1 = idx_seq(j as int + 1);
            assert(t1.drop_last() =~= idx_seq(j as int));
            assert(t1.last() == j as int);
            assert(t1.filter(kp) == if kp(j as int) {
                idx_seq(j as int).filter(kp).push(j as int)
            } else {
                idx_seq(j as int).filter(kp)
            });
            if !ig {
                assert(surv@.map_values(|u: usize| u as int) =~= t1.filter(kp));
            }
        }
        j = j + 1;
    }
    let ghost sv = survivors(n.children@, rules, cs0);
    proof {
        assert(idx_seq(j as int) =~= idx_seq(nc as int));
        assert(surv@.map_values(|u: usize| u as int) == sv);
    }
    let mut ord: Vec<usize> = Vec::new();
    let mut k2: usize = 0;
    proof {
        assert(sv.take(0int) =~= Seq::<int>::empty());
        assert(ord@.map_values(|u: usize| u as int) =~= sort_idx(n.children@, sv.take(0int)));
    }
    while k2 < surv.len()
        invariant
            k2 <= surv@.len(),
            nc == n.children@.len(),
            sv == surv@.map_values(|u: usize| u as int),
            forall|k: int| 0 <= k < surv@.len() ==> (#[trigger] surv@[k] as int) < nc,
            ord@.map_values(|u: usize| u as int) == sort_idx(n.children@, sv.take(k2 as int)),
            forall|k: int| 0 <= k < ord@.len() ==> (#[trigger] ord@[k] as int) < nc,
        decreases surv@.len() - k2,
    {
        let j2 = surv[k2];
        let p = find_insert_pos(&n.children, &ord, j2);
        let ghost ord_snap = ord@.map_values(|u: usize| u as int);
        ord.insert(p, j2);
        proof {
            let t1 = sv.take(k2 as int + 1);
            assert(t1.drop_last() =~= sv.take(k2 as int));
            assert(t1.last() == sv[k2 as int]);
            assert(sv[k2 as int] == j2 as int);
            assert(ord@.map_values(|u: usize| u as int) =~= ord_snap.insert(p as int, j2 as int));
            assert(sort_idx(n.children@, t1) == ord_snap.insert(
                insert_pos(n.children@, ord_snap, j2 as int),
                j2 as int,
            ));
        }
        k2 = k2 + 1;
    }
    let ghost ordv = ord@.map_values(|u: usize| u as int);
    proof {
        assert(sv.take(surv@.len() as int) =~= sv);
        assert(ordv == child_order(n.children@, rules, cs0));
        assert(ordv.take(0int) =~= Seq::<int>::empty());
        assert(out@.map_values(|e: Entry| e@) =~= out0 + seq![ev] + spec_build_list(
            n.children@,
            ordv.take(0int),
            cs0,
            limit as int,
            rules,
        ));
    }
    let mut t: usize = 0;
    while t < ord.len()
        invariant
            t <= ord@.len(),
            nc == n.children@.len(),
            rules == matcher_lines(*g),
            comps@ == old(comps)@,
            comps@.map_values(|c: String| c@) == cs0,
            ordv == ord@.map_values(|u: usize| u as int),
            forall|k: int| 0 <= k < ord@.len() ==> (#[trigger] ord@[k] as int) < nc,
            out@.map_values(|e: Entry| e@) == out0 + seq![ev] + spec_build_list(
                n.children@,
                ordv.take(t as int),
                cs0,
                limit as int,
                rules,
            ),
        decreases ord@.len() - t,
    {
        let j3 = ord[t];
        let c = &n.children[j3];
        let ghost comps_snap = comps@;
        comps.push(c.name.clone());
        build_into(c, comps, limit, g, out);
        let _ = comps.pop();
        proof {
            assert(comps@ =~= comps_snap);
            assert(comps_snap.push(c.name).map_values(|c2: String| c2@) =~= cs0.push(
                n.children@[j3 as int].name@,
            ));
            lemma_build_list_snoc(n.children@, ordv, t as int, cs0, limit as int, rules);
            assert(out@.map_values(|e: Entry| e@) =~= out0 + seq![ev] + spec_build_list(
                n.children@,
                ordv.take(t as int + 1),
                cs0,
                limit as int,
                rules,
            ));
        }
        t = t + 1;
    }
    proof {
        assert(ordv.take(ord@.len() as int) =~= ordv);
        assert(out0 + seq![ev] + spec_build_list(
            n.children@,
            ordv,
            cs0,
            limit as int,
            rules,
        ) =~= out0 + spec_build(*n, cs0, limit as int, rules));
    }
}

/// The scan root is always emitted, and first, whatever the rules would say
/// of its own name: the traversal never queries the rules for the root.
pub proof fn lemma_root_always_emitted(
    n: FsNode,
    comps: Seq<Seq<char>>,
    limit: int,
    rules: Seq<Seq<char>>,
)
    ensures
        spec_build(n, comps, limit, rules).len() >= 1,
        spec_build(n, comps, limit, rules)[0] == entry_of(n, comps.len() as int),
{
}

/// The visit order is sorted: directories before files, same-kind siblings
/// by ascending name.
pub open spec fn sorted_order(children: Seq<FsNode>, o: Seq<int>) -> bool {
    forall|x: int, y: int|
        0 <= x < y < o.len() ==> child_le(children[#[trigger] o[x]], children[#[trigger] o[y]])
}

proof fn lemma_child_le_total(a: FsNode, b: FsNode)
    ensures
        child_le(a, b) || child_le(b, a),
{
    lemma_lex_total(a.name@, b.name@);
}

proof fn lemma_child_le_trans(a: FsNode, b: FsNode, c: FsNode)
    requires
        child_le(a, b),
        child_le(b, c),
    ensures
        child_le(a, c),
{
    if a.is_dir == b.is_dir && b.is_dir == c.is_dir {
        lemma_lex_trans(a.name@, b.name@, c.name@);
    }
}

proof fn lemma_insert_pos_props(children: Seq<FsNode>, s: Seq<int>, j: int)
    ensures
        forall|k: int|
            0 <= k < insert_pos(children, s, j) ==> child_le(
                children[#[trigger] s[k]],
                children[j],
            ),
        insert_pos(children, s, j) < s.len() ==> !child_le(
            children[s[insert_pos(children, s, j)]],
            children[j],
        ),
    decreases s.len(),
{
    lemma_insert_pos_bounds(children, s, j);
    if s.len() > 0 && child_le(children[s[0]], children[j]) {
        lemma_insert_pos_props(children, s.drop_first(), j);
        lemma_insert_pos_bounds(children, s.drop_first(), j);
        let p = insert_pos(children, s, j);
        assert forall|k: int| 0 <= k < p implies child_le(
            children[#[trigger] s[k]],
            children[j],
        ) by {
            if k > 0 {
                assert(s.drop_first()[k - 1] == s[k]);
            }
        }
        if p < s.len() {
            assert(s.drop_first()[p - 1] == s[p]) by {
                assert(s.drop_first() == s.subrange(1, s.len() as int));
            }
        }
    }
}

proof fn lemma_insert_sorted_order(children: Seq<FsNode>, s: Seq<int>, j: int)
    requires
        sorted_order(children, s),
    ensures
        sorted_order(children, s.insert(insert_pos(children, s, j), j)),
{
    let p = insert_pos(children, s, j);
    lemma_insert_pos_bounds(children, s, j);
    lemma_insert_pos_props(children, s, j);
    s.insert_ensures(p, j);
    let t = s.insert(p, j);
    assert forall|x: int, y: int| 0 <= x < y < t.len() implies child_le(
        children[#[trigger] t[x]],
        children[#[trigger] t[y]],
    ) by {
        if y < p {
            assert(t[x] == s[x] && t[y] == s[y]);
        } else if x < p && y == p {
            assert(t[x] == s[x] && t[y] == j);
        } else if x == p && y > p {
            assert(t[y] == s[y - 1]);
            assert(p <= y - 1 < s.len());
            lemma_child_le_total(children[s[p]], children[j]);
            if y - 1 > p {
                lemma_child_le_trans(children[j], children[s[p]], children[s[y - 1]]);
            }
        } else if x < p && y > p {
            assert(t[x] == s[x] && t[y] == s[y - 1]);
        } else if x > p {
            assert(t[x] == s[x - 1] && t[y] == s[y - 1]);
        }
    }
}

proof fn lemma_sort_idx_sorted(children: Seq<FsNode>, s: Seq<int>)
    ensures
        sorted_order(children, sort_idx(children, s)),
    decreases s.len(),
{
    if s.len() > 0 {
        lemma_sort_idx_sorted(children, s.drop_last());
        lemma_insert_sorted_order(children, sort_idx(children, s.drop_last()), s.last());
    }
}

/// Deterministic sibling order: however a directory's surviving children
/// arrived, the traversal visits them directories first and each group in
/// ascending name order.
pub proof fn lemma_child_order_sorted(
    children: Seq<FsNode>,
    rules: Seq<Seq<char>>,
    comps: Seq<Seq<char>>,
)
    ensures
        sorted_order(children, child_order(children, rules, comps)),
{
    lemma_sort_idx_sorted(children, survivors(children, rules, comps));
}

proof fn lemma_sort_idx_permutes(children: Seq<FsNode>, s: Seq<int>)
    ensures
        sort_idx(children, s).to_multiset() == s.to_multiset(),
    decreases s.len(),
{
    broadcast use vstd::seq_lib::group_to_multiset_ensures;

    if s.len() > 0 {
        let x = s.last();
        let rest = sort_idx(children, s.drop_last());
        lemma_sort_idx_permutes(children, s.drop_last());
        lemma_insert_pos_bounds(children, rest, x);
        let p = insert_pos(children, rest, x);
        let a = rest.subrange(0, p);
        let b = rest.subrange(p, rest.len() as int);
        assert(sort_idx(children, s) == rest.insert(p, x));
        assert(rest.insert(p, x) == a.push(x) + b);
        vstd::seq_lib::lemma_multiset_commutative(a.push(x), b);
        assert(a + b =~= rest);
        vstd::seq_lib::lemma_multiset_commutative(a, b);
        assert(s.drop_last().push(x) =~= s);
        assert(sort_idx(children, s).to_multiset() =~= s.to_multiset());
    }
}

/// Nothing is lost or repeated: the visit order of a directory is a
/// permutation of the indices of its surviving children.
pub proof fn lemma_child_order_permutes(
    children: Seq<FsNode>,
    rules: Seq<Seq<char>>,
    comps: Seq<Seq<char>>,
)
    ensures
        child_order(children, rules, comps).to_multiset() == survivors(
            children,
            rules,
            comps,
        ).to_multiset(),
{
    lemma_sort_idx_permutes(children, survivors(children, rules, comps));
}

/// An entry's depth is `depth <= k`.
pub open spec fn depth_at_most(k: int) -> spec_fn(EntryV) -> bool {
    |e: EntryV| e.depth <= k
}

proof fn lemma_filter_all_false<A>(s: Seq<A>, pred: spec_fn(A) -> bool)
    requires
        forall|i: int| 0 <= i < s.len() ==> !pred(s[i]),
    ensures
        s.filter(pred) == Seq::<A>::empty(),
    decreases s.len(),
{
    reveal(Seq::filter);
    if s.len() > 0 {
        lemma_filter_all_false(s.drop_last(), pred);
    }
}

proof fn lemma_build_depth_min(n: FsNode, comps: Seq<Seq<char>>, limit: int, rules: Seq<Seq<char>>)
    ensures
        forall|i: int|
            0 <= i < spec_build(n, comps, limit, rules).len() ==> (#[trigger] spec_build(
                n,
                comps,
                limit,
                rules,
            )[i]).depth >= comps.len(),
    decreases n, 0int,
{
    let b = spec_build(n, comps, limit, rules);
    let ev = entry_of(n, comps.len() as int);
    if n.is_dir && (limit == 0 || comps.len() < limit) {
        let ord = child_order(n.children@, rules, comps);
        let l = spec_build_list(n.children@, ord, comps, limit, rules);
        lemma_build_list_depth_min(n.children@, ord, comps, limit, rules);
        assert(b == seq![ev] + l);
        assert forall|i: int| 0 <= i < b.len() implies (#[trigger] b[i]).depth >= comps.len() by {
            if i == 0 {
                assert(b[0] == ev);
            } else {
                assert(b[i] == l[i - 1]);
            }
        }
    } else {
        assert(b =~= seq![ev]);
        assert forall|i: int| 0 <= i < b.len() implies (#[trigger] b[i]).depth >= comps.len() by {
            assert(b[i] == ev);
        }
    }
}

proof fn lemma_build_list_depth_min(
    children: Seq<FsNode>,
    order: Seq<int>,
    comps: Seq<Seq<char>>,
    limit: int,
    rules: Seq<Seq<char>>,
)
    ensures
        forall|i: int|
            0 <= i < spec_build_list(children, order, comps, limit, rules).len() ==> (
            #[trigger] spec_build_list(children, order, comps, limit, rules)[i]).depth > comps.len(),
    decreases children, order.len(),
{
    if order.len() > 0 {
        let l = spec_build_list(children, order, comps, limit, rules);
        let rest = spec_build_list(children, order.drop_first(), comps, limit, rules);
        lemma_build_list_depth_min(children, order.drop_first(), comps, limit, rules);
        if 0 <= order[0] < children.len() {
            let c = children[order[0]];
            lemma_build_depth_min(c, comps.push(c.name@), limit, rules);
            let h = spec_build(c, comps.push(c.name@), limit, rules);
            assert(l == h + rest);
            assert forall|i: int| 0 <= i < l.len() implies (#[trigger] l[i]).depth > comps.len() by {
                if i < h.len() {
                    assert(l[i] == h[i]);
                } else {
                    assert(l[i] == rest[i - h.len()]);
                }
            }
        } else {
            assert(l == rest);
        }
    }
}

/// Depth-limit exactness: with a positive limit the traversal emits exactly
/// those entries of the unlimited traversal whose depth is at most the
/// limit, in the same order — everything at the limit appears, nothing
/// below it does.
pub proof fn lemma_depth_limit_exact(
    n: FsNode,
    comps: Seq<Seq<char>>,
    k: int,
    rules: Seq<Seq<char>>,
)
    requires
        0 < k,
        comps.len() <= k,
    ensures
        spec_build(n, comps, k, rules) == spec_build(n, comps, 0, rules).filter(depth_at_most(k)),
    decreases n, 0int,
{
    reveal(Seq::filter);
    let pred = depth_at_most(k);
    let ev = entry_of(n, comps.len() as int);
    let evs = seq![ev];
    assert(evs.drop_last() =~= Seq::<EntryV>::empty());
    assert(evs.filter(pred) =~= evs);
    if !n.is_dir {
        assert(spec_build(n, comps, k, rules) =~= evs);
        assert(spec_build(n, comps, 0, rules) =~= evs);
    } else if comps.len() == k {
        let l0 = spec_build_list(n.children@, child_order(n.children@, rules, comps), comps, 0, rules);
        lemma_build_list_depth_min(
            n.children@,
            child_order(n.children@, rules, comps),
            comps,
            0,
            rules,
        );
        lemma_filter_all_false(l0, pred);
        Seq::filter_distributes_over_add(evs, l0, pred);
        assert(spec_build(n, comps, 0, rules) == evs + l0);
        assert(spec_build(n, comps, k, rules) =~= evs);
        assert(evs + Seq::<EntryV>::empty() =~= evs);
    } else {
        let ord = child_order(n.children@, rules, comps);
        let l0 = spec_build_list(n.children@, ord, comps, 0, rules);
        let lk = spec_build_list(n.children@, ord, comps, k, rules);
        lemma_depth_limit_exact_list(n.children@, ord, comps, k, rules);
        Seq::filter_distributes_over_add(evs, l0, pred);
        assert(spec_build(n, comps, k, rules) == evs + lk);
        assert(spec_build(n, comps, 0, rules) == evs + l0);
    }
}

proof fn lemma_depth_limit_exact_list(
    children: Seq<FsNode>,
    order: Seq<int>,
    comps: Seq<Seq<char>>,
    k: int,
    rules: Seq<Seq<char>>,
)
    requires
        0 < k,
        comps.len() < k,
    ensures
        spec_build_list(children, order, comps, k, rules) == spec_build_list(
            children,
            order,
            comps,
            0,
            rules,
        ).filter(depth_at_most(k)),
    decreases children, order.len(),
{
    reveal(Seq::filter);
    let pred = depth_at_most(k);
    if order.len() == 0 {
        assert(Seq::<EntryV>::empty().filter(pred) =~= Seq::<EntryV>::empty());
    } else {
        lemma_depth_limit_exact_list(children, order.drop_first(), comps, k, rules);
        if 0 <= order[0] < children.len() {
            let c = children[order[0]];
            lemma_depth_limit_exact(c, comps.push(c.name@), k, rules);
            Seq::filter_distributes_over_add(
                spec_build(c, comps.push(c.name@), 0, rules),
                spec_build_list(children, order.drop_first(), comps, 0, rules),
                pred,
            );
        }
    }
}

/// Builds the ordered entry sequence for the snapshot rooted at `root`:
/// depth-first, the root always emitted first, ignored children pruned with
/// their whole subtrees, siblings in render order, and descent stopped at
/// `limit` (0 meaning no limit).
pub fn build_entries(root: &FsNode, g: &Gitignore, limit: usize) -> (r: Vec<Entry>)
    ensures
        r@.map_values(|e: Entry| e@) == spec_build(
            *root,
            Seq::<Seq<char>>::empty(),
            limit as int,
            matcher_lines(*g),
        ),
{
    let mut out: Vec<Entry> = Vec::new();
    let mut comps: Vec<String> = Vec::new();
    build_into(root, &mut comps, limit, g, &mut out);
    proof {
        assert(Seq::<String>::empty().map_values(|c: String| c@) =~= Seq::<Seq<char>>::empty());
        assert(Seq::<Entry>::empty().map_values(|e: Entry| e@) =~= Seq::<EntryV>::empty());
        assert(Seq::<EntryV>::empty() + spec_build(
            *root,
            Seq::<Seq<char>>::empty(),
            limit as int,
            matcher_lines(*g),
        ) =~= spec_build(*root, Seq::<Seq<char>>::empty(), limit as int, matcher_lines(*g)));
    }
    out
}

} // verus!
