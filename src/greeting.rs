use vstd::prelude::*;
use vstd::string::StringExecFns;

verus! {

/// The sentence by which `name` presents itself.
pub open spec fn presentation(name: Seq<char>) -> Seq<char> {
    "I am "@ + name
}

/// The greeting built from a message and a name.
pub open spec fn greeting(message: Seq<char>, name: Seq<char>) -> Seq<char> {
    "Hello world! "@ + message + " "@ + presentation(name)
}

/// `I am <name>`.
pub fn present(name: &str) -> (r: String)
    ensures
        r@ == presentation(name@),
{
    proof {
        reveal_strlit("I am ");
    }
    String::from_str("I am ").concat(name)
}

/// `Hello world! <message> I am <name>`.
pub fn hello_world(message: &str, name: &str) -> (r: String)
    ensures
        r@ == greeting(message@, name@),
{
    let present_message = present(name);
    proof {
        reveal_strlit("Hello world! ");
        reveal_strlit(" ");
    }
    let r = String::from_str("Hello world! ").concat(message).concat(" ").concat(present_message.as_str());
    proof {
        assert(r@ =~= greeting(message@, name@));
    }
    r
}

} // verus!
