//! Metric names derived from the path of ancestor tags.

use crate::text::{push_replaced, replace_char, texts};
use vstd::prelude::*;

verus! {

/// The components of `path` joined by single underscores.
pub open spec fn join_path(path: Seq<Seq<char>>) -> Seq<char>
    decreases path.len(),
{
    if path.len() == 0 {
        Seq::empty()
    } else if path.len() == 1 {
        path[0]
    } else {
        join_path(path.drop_last()) + seq!['_'] + path.last()
    }
}

/// The metric name of an element: its ancestor tags from the root down, joined by
/// underscores, with every dot written as an underscore.
pub open spec fn metric_name(path: Seq<Seq<char>>) -> Seq<char> {
    replace_char(join_path(path), '.', '_')
}

/// Derives the metric name of the element whose ancestor tags, root first, are `path`.
pub fn xml_path_to_metric_name(path: &[String]) -> (name: String)
    ensures
        name@ == metric_name(texts(path@)),
{
    let mut name = String::new();
    let n = path.len();
    let mut i: usize = 0;
    while i < n
        invariant
            n == path@.len(),
            i <= n,
            name@ == metric_name(texts(path@).take(i as int)),
        decreases n - i,
    {
        let ghost before = name@;
        let ghost all = texts(path@);
        if i > 0 {
            name.push('_');
        }
        push_replaced(&mut name, path[i].as_str(), '.', '_');
        proof {
            let next = all.take(i + 1);
            assert(next.drop_last() =~= all.take(i as int));
            assert(next.last() == path@[i as int]@);
            if i > 0 {
                assert(metric_name(next) =~= before.push('_') + replace_char(
                    path@[i as int]@,
                    '.',
                    '_',
                ));
            } else {
                assert(before =~= Seq::<char>::empty());
                assert(metric_name(next) =~= before + replace_char(path@[i as int]@, '.', '_'));
            }
        }
        i += 1;
    }
    proof {
        assert(texts(path@).take(n as int) =~= texts(path@));
    }
    name
}

} // verus!
