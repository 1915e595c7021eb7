use vstd::prelude::*;

use crate::icon::{get_icon, spec_icon};
use crate::tree::{Entry, EntryV};

verus! {

/// Three spaces of indentation for each depth level.
pub open spec fn spec_indent(depth: int) -> Seq<char>
    decreases depth,
{
    if depth <= 0 {
        Seq::empty()
    } else {
        spec_indent(depth - 1) + "   "@
    }
}

/// One rendered line: indentation for the entry's depth, its icon, one
/// space, its name, a newline.
pub open spec fn spec_line(e: EntryV) -> Seq<char> {
    spec_indent(e.depth) + spec_icon(e.name, e.is_dir) + " "@ + e.name + "\n"@
}

/// The rendered block: the lines of the entries, in order.
pub open spec fn spec_render(es: Seq<EntryV>) -> Seq<char>
    decreases es.len(),
{
    if es.len() == 0 {
        Seq::empty()
    } else {
        spec_line(es[0]) + spec_render(es.drop_first())
    }
}

proof fn lemma_render_snoc(es: Seq<EntryV>, i: int)
    requires
        0 <= i < es.len(),
    ensures
        spec_render(es.take(i + 1)) == spec_render(es.take(i)) + spec_line(es[i]),
    decreases i,
{
    reveal_with_fuel(spec_render, 2);
    if i == 0 {
        assert(es.take(1).drop_first() =~= Seq::<EntryV>::empty());
        assert(es.take(1)[0] == es[0]);
        assert(es.take(0) =~= Seq::<EntryV>::empty());
        assert(spec_line(es[0]) + Seq::<char>::empty() =~= spec_line(es[0]));
        assert(Seq::<char>::empty() + spec_line(es[0]) =~= spec_line(es[0]));
    } else {
        let d = es.drop_first();
        lemma_render_snoc(d, i - 1);
        assert(es.take(i + 1).drop_first() =~= d.take(i));
        assert(es.take(i).drop_first() =~= d.take(i - 1));
        assert(es.take(i + 1)[0] == es[0]);
        assert(es.take(i)[0] == es[0]);
        assert(d[i - 1] == es[i]);
        assert(spec_line(es[0]) + (spec_render(d.take(i - 1)) + spec_line(es[i])) =~= (spec_line(
            es[0],
        ) + spec_render(d.take(i - 1))) + spec_line(es[i]));
    }
}

/// Serializes the entries: one newline-terminated line per entry, three
/// spaces per depth level, then the icon, a space and the name. A pure
/// function of the entry sequence, so rendering the same sequence again
/// yields the identical text.
pub fn render(entries: &Vec<Entry>) -> (r: String)
    ensures
        r@ == spec_render(entries@.map_values(|e: Entry| e@)),
{
    let ghost es = entries@.map_values(|e: Entry| e@);
    let mut out = String::new();
    proof {
        assert(es.take(0int) =~= Seq::<EntryV>::empty());
    }
    let mut i: usize = 0;
    while i < entries.len()
        invariant
            i <= entries@.len(),
            es == entries@.map_values(|e: Entry| e@),
            out@ == spec_render(es.take(i as int)),
        decreases entries@.len() - i,
    {
        let e = &entries[i];
        let mut d: usize = 0;
        proof {
            assert(out@ + Seq::<char>::empty() =~= out@);
        }
        while d < e.depth
            invariant
                d <= e.depth,
                e == &entries[i as int],
                i < entries@.len(),
                es == entries@.map_values(|e2: Entry| e2@),
                out@ == spec_render(es.take(i as int)) + spec_indent(d as int),
            decreases e.depth - d,
        {
            out.append("   ");
            d = d + 1;
        }
        out.append(get_icon(e.name.as_str(), e.is_dir));
        out.append(" ");
        out.append(e.name.as_str());
        out.append("\n");
        proof {
            assert(es[i as int] == e@);
            assert(out@ =~= spec_render(es.take(i as int)) + spec_line(es[i as int]));
            lemma_render_snoc(es, i as int);
        }
        i = i + 1;
    }
    proof {
        assert(es.take(entries@.len() as int) =~= es);
    }
    out
}

} // verus!
