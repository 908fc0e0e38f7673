//! Combining a list of rendered elements into one string.

use vstd::prelude::*;
use vstd::string::StringExecFns;

verus! {

/// The elements of `items` concatenated, with `sep` between consecutive ones.
pub open spec fn spec_join<T>(items: Seq<Seq<T>>, sep: Seq<T>) -> Seq<T>
    decreases items.len(),
{
    if items.len() == 0 {
        Seq::empty()
    } else if items.len() == 1 {
        items[0]
    } else {
        items[0] + sep + spec_join(items.drop_first(), sep)
    }
}

/// Combine all elements into one `String`, separated by `sep`.
pub fn join(items: &Vec<String>, sep: &str) -> (r: String)
    ensures
        r@ == spec_join(items.deep_view(), sep@),
{
    let ghost views = items.deep_view();
    if items.len() == 0 {
        return String::new();
    }
    let mut result = String::new();
    result.append(items[0].as_str());
    let mut i: usize = 1;
    while i < items.len()
        invariant
            1 <= i <= items.len(),
            views == items.deep_view(),
            views.len() == items.len(),
            result@ == spec_join(views.take(i as int), sep@),
        decreases items.len() - i,
    {
        result.append(sep);
        result.append(items[i].as_str());
        proof {
            lemma_join_push(views.take(i as int), views[i as int], sep@);
            assert(views.take(i as int).push(views[i as int]) =~= views.take(i + 1));
        }
        i += 1;
    }
    proof {
        assert(views.take(items.len() as int) =~= views);
    }
    result
}

/// Joining one more element appends the separator and the element.
pub proof fn lemma_join_push<T>(items: Seq<Seq<T>>, next: Seq<T>, sep: Seq<T>)
    requires
        items.len() >= 1,
    ensures
        spec_join(items.push(next), sep) == spec_join(items, sep) + sep + next,
    decreases items.len(),
{
    if items.len() == 1 {
        assert(items.push(next).drop_first() =~= seq![next]);
        assert(seq![next].len() == 1);
        assert(spec_join(seq![next], sep) == next);
        assert(spec_join(items.push(next), sep) == items.push(next)[0] + sep + next);
        assert(items.push(next)[0] == items[0]);
    } else {
        lemma_join_push(items.drop_first(), next, sep);
        assert(items.push(next).drop_first() =~= items.drop_first().push(next));
        assert(spec_join(items, sep) + sep + next =~= items[0] + sep + (spec_join(
            items.drop_first(),
            sep,
        ) + sep + next));
        assert(spec_join(items.push(next), sep) =~= items[0] + sep + spec_join(
            items.drop_first().push(next),
            sep,
        ));
    }
}

} // verus!
