//! Host-supplied text corrections, applied when a script assigns a
//! member's text. The page names exact strings to replace; nothing else is
//! touched, and the cast's own data is never modified.
use vstd::prelude::*;

verus! {

/// The correction for `text`: the replacement of the first rule whose
/// original is exactly `text`, or `None` when no rule names it.
pub open spec fn correction(rules: Seq<(String, String)>, text: Seq<char>) -> Option<Seq<char>> {
    if exists|i: int| 0 <= i < rules.len() && #[trigger] rules[i].0@ == text {
        let i = choose|i: int|
            0 <= i < rules.len() && #[trigger] rules[i].0@ == text && forall|j: int|
                0 <= j < i ==> #[trigger] rules[j].0@ != text;
        Some(rules[i].1@)
    } else {
        None
    }
}

/// The corrected text, or the input unchanged when nothing matches. Exact
/// whole-string match only: a substring rule would misfire on text the game
/// builds up piece by piece.
pub fn apply(rules: &Vec<(String, String)>, text: &str) -> (r: Option<String>)
    ensures
        r is Some,
        correction(rules@, text@) matches Some(c) ==> r.unwrap()@ == c,
        correction(rules@, text@) is None ==> r.unwrap()@ == text@,
{
    let wanted = String::from_str(text);
    let mut i: usize = 0;
    while i < rules.len()
        invariant
            i <= rules@.len(),
            wanted@ == text@,
            forall|j: int| 0 <= j < i ==> #[trigger] rules@[j].0@ != text@,
        decreases rules.len() - i,
    {
        if rules[i].0 == wanted {
            let found = rules[i].1.clone();
            proof {
                let k = choose|k: int|
                    0 <= k < rules@.len() && #[trigger] rules@[k].0@ == text@ && forall|j: int|
                        0 <= j < k ==> #[trigger] rules@[j].0@ != text@;
                assert(0 <= i < rules@.len() && rules@[i as int].0@ == text@ && forall|j: int|
                    0 <= j < i ==> #[trigger] rules@[j].0@ != text@);
                if k < i {
                    assert(rules@[k].0@ != text@);
                } else if k > i {
                    assert(rules@[i as int].0@ != text@);
                }
            }
            return Some(found);
        }
        i = i + 1;
    }
    Some(wanted)
}

/// The first rule whose original is exactly the text decides the
/// correction; text no rule names has none.
pub proof fn law_first_exact_rule_wins(rules: Seq<(String, String)>, text: Seq<char>, i: int)
    ensures
        0 <= i < rules.len() && rules[i].0@ == text && (forall|j: int| 0 <= j < i ==> #[trigger] rules[j].0@ != text)
            ==> correction(rules, text) == Some(rules[i].1@),
        (forall|j: int| 0 <= j < rules.len() ==> #[trigger] rules[j].0@ != text) ==> correction(rules, text) is None,
{
    if 0 <= i < rules.len() && rules[i].0@ == text && (forall|j: int| 0 <= j < i ==> #[trigger] rules[j].0@ != text) {
        let k = choose|k: int|
            0 <= k < rules.len() && #[trigger] rules[k].0@ == text && forall|j: int|
                0 <= j < k ==> #[trigger] rules[j].0@ != text;
        if k < i {
            assert(rules[k].0@ != text);
        } else if k > i {
            assert(rules[i].0@ != text);
        }
    }
}

} // verus!
