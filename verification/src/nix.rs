//! Task names declared in a Nix expression (`tasks.<name>`), read with the
//! `rnix` parser.
use vstd::prelude::*;
use crate::text::{chars_of, string_of};

verus! {

/// The source text of each child node of the root of the syntax tree that
/// `rnix` builds for `code`, in order.
pub uninterp spec fn nix_root_children_texts(code: Seq<char>) -> Seq<Seq<char>>;

/// Parses `code` with `rnix::Root::parse` and reads the text of each child of
/// the root syntax node (`SyntaxNode::children`, `SyntaxNode::text`). The
/// contract claims only that the texts are `nix_root_children_texts` of the
/// code; what the tree looks like is left to `rnix`.
#[verifier::external_body]
fn root_children_texts(code: &str) -> (texts: Vec<String>)
    ensures
        texts.deep_view() == nix_root_children_texts(code@),
{
    let root = rnix::Root::parse(code).syntax();
    let mut texts = Vec::new();
    for node in root.children() {
        texts.push(node.text().to_string());
    }
    texts
}

/// The prefix that marks a task.
pub open spec fn task_prefix() -> Seq<char> {
    seq!['t', 'a', 's', 'k', 's', '.']
}

/// The task names among `texts`: what follows `"tasks."` in each text that
/// starts with it (`str::strip_prefix`), in order.
pub open spec fn tasks_of(texts: Seq<Seq<char>>) -> Seq<Seq<char>>
    decreases texts.len(),
{
    if texts.len() == 0 {
        Seq::empty()
    } else {
        let t = texts.last();
        tasks_of(texts.drop_last()) + if t.len() >= 6 && t.take(6) == task_prefix() {
            seq![t.skip(6)]
        } else {
            Seq::empty()
        }
    }
}

/// The task names among the node texts `texts`.
pub fn extract_tasks(texts: &Vec<String>) -> (tasks: Vec<String>)
    ensures
        tasks.deep_view() == tasks_of(texts.deep_view()),
{
    let ghost ts = texts.deep_view();
    let prefix: [char; 6] = ['t', 'a', 's', 'k', 's', '.'];
    proof {
        assert(prefix@ =~= task_prefix());
    }
    let mut tasks: Vec<String> = Vec::new();
    let mut i: usize = 0;
    proof {
        assert(ts.take(0) =~= Seq::<Seq<char>>::empty());
    }
    while i < texts.len()
        invariant
            i <= texts.len(),
            ts == texts.deep_view(),
            prefix@ == task_prefix(),
            tasks.deep_view() =~= tasks_of(ts.take(i as int)),
        decreases texts.len() - i,
    {
        let t = chars_of(texts[i].as_str());
        proof {
            assert(ts.take(i + 1).drop_last() =~= ts.take(i as int));
            assert(ts.take(i + 1).last() == t@);
        }
        if t.len() >= 6 {
            let mut k: usize = 0;
            while k < 6 && t[k] == prefix[k]
                invariant
                    k <= 6 <= t.len(),
                    forall|j: int| 0 <= j < k ==> t@[j] == prefix@[j],
                decreases 6 - k,
            {
                k += 1;
            }
            if k == 6 {
                let mut rest: Vec<char> = Vec::new();
                let mut j: usize = 6;
                while j < t.len()
                    invariant
                        6 <= j <= t.len(),
                        rest@ =~= t@.subrange(6, j as int),
                    decreases t.len() - j,
                {
                    rest.push(t[j]);
                    j += 1;
                }
                let ghost before = tasks.deep_view();
                tasks.push(string_of(rest.as_slice()));
                proof {
                    assert(t@.take(6) =~= task_prefix());
                    assert(t@.subrange(6, t@.len() as int) =~= t@.skip(6));
                    assert(tasks.deep_view() =~= before.push(t@.skip(6)));
                }
            } else {
                proof {
                    assert(t@.take(6)[k as int] != task_prefix()[k as int]);
                }
            }
        }
        i += 1;
    }
    proof {
        assert(ts.take(i as int) =~= ts);
    }
    tasks
}

/// The task names that a Nix expression declares at the top of its tree.
pub fn parse_nix(nix_code: &str) -> (tasks: Vec<String>)
    ensures
        tasks.deep_view() == tasks_of(nix_root_children_texts(nix_code@)),
{
    let texts = root_children_texts(nix_code);
    extract_tasks(&texts)
}


/// A text that starts with `"tasks."` names one task: everything after the
/// prefix, dots included (`str::strip_prefix`); any other text names none.
pub proof fn law_task_of_one_text(t: Seq<char>)
    ensures
        t.len() >= 6 && t.take(6) == seq!['t', 'a', 's', 'k', 's', '.'] ==> tasks_of(seq![t]) == seq![
            t.skip(6),
        ],
        !(t.len() >= 6 && t.take(6) == seq!['t', 'a', 's', 'k', 's', '.']) ==> tasks_of(seq![t])
            == Seq::<Seq<char>>::empty(),
        tasks_of(seq![seq!['t', 'a', 's', 'k', 's', '.'] + t]) == seq![t],
{
    let one = seq![t];
    assert(one.drop_last() =~= Seq::<Seq<char>>::empty());
    assert(one.last() == t);
    assert(tasks_of(one.drop_last()) == Seq::<Seq<char>>::empty());
    let u = seq!['t', 'a', 's', 'k', 's', '.'] + t;
    let other = seq![u];
    assert(other.drop_last() =~= Seq::<Seq<char>>::empty());
    assert(other.last() == u);
    assert(tasks_of(other.drop_last()) == Seq::<Seq<char>>::empty());
    assert(u.take(6) =~= task_prefix());
    assert(u.skip(6) =~= t);
    assert(tasks_of(other) =~= seq![t]);
    if t.len() >= 6 && t.take(6) == seq!['t', 'a', 's', 'k', 's', '.'] {
        assert(tasks_of(one) =~= seq![t.skip(6)]);
    } else {
        assert(tasks_of(one) =~= Seq::<Seq<char>>::empty());
    }
}

/// The tasks of texts read one part after another are the tasks of the
/// first part followed by those of the second.
pub proof fn law_tasks_concat(a: Seq<Seq<char>>, b: Seq<Seq<char>>)
    ensures
        tasks_of(a + b) == tasks_of(a) + tasks_of(b),
    decreases b.len(),
{
    if b.len() == 0 {
        assert(a + b =~= a);
        assert(tasks_of(a) + tasks_of(b) =~= tasks_of(a));
    } else {
        law_tasks_concat(a, b.drop_last());
        assert((a + b).drop_last() =~= a + b.drop_last());
        assert((a + b).last() == b.last());
        assert(tasks_of(a + b) =~= tasks_of(a) + tasks_of(b));
    }
}

} // verus!
