use vstd::prelude::*;

verus! {

/// The value of the first pair under `key` in the environment, or the empty text where
/// there is none.
pub open spec fn env_value(environment: Seq<(String, String)>, key: Seq<char>) -> Seq<char>
    decreases environment.len(),
{
    if environment.len() == 0 {
        Seq::empty()
    } else if environment[0].0@ == key {
        environment[0].1@
    } else {
        env_value(environment.drop_first(), key)
    }
}

fn same_text(a: &str, b: &str) -> (r: bool)
    ensures
        r == (a@ == b@),
{
    String::eq(&a.to_owned(), &b.to_owned())
}

/// Whether a definition with `condition` is registered: with no condition always; with
/// a condition `(key, expected)`, when the environment's value of `key` (empty where it has
/// none) is `expected`.
pub fn condition_holds(condition: Option<(&str, &str)>, environment: &Vec<(String, String)>) -> (r: bool)
    ensures
        r == (match condition {
            None => true,
            Some((key, expected)) => env_value(environment@, key@) == expected@,
        }),
{
    match condition {
        None => true,
        Some((key, expected)) => {
            let mut i: usize = 0;
            proof {
                assert(environment@.skip(0) =~= environment@);
            }
            while i < environment.len()
                invariant
                    condition == Some((key, expected)),
                    i <= environment@.len(),
                    env_value(environment@, key@) == env_value(environment@.skip(i as int), key@),
                decreases environment@.len() - i,
            {
                if same_text(environment[i].0.as_str(), key) {
                    proof {
                        assert(environment@.skip(i as int)[0] == environment@[i as int]);
                    }
                    return same_text(environment[i].1.as_str(), expected);
                }
                proof {
                    assert(environment@.skip(i as int).drop_first() =~= environment@.skip(i + 1));
                }
                i = i + 1;
            }
            proof {
                reveal_strlit("");
                assert(""@ =~= Seq::<char>::empty());
                assert(environment@.skip(i as int).len() == 0);
                assert(env_value(environment@, key@) == Seq::<char>::empty());
            }
            same_text("", expected)
        },
    }
}

} // verus!
