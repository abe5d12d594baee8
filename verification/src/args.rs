use vstd::prelude::*;
use vstd::string::*;

verus! {

/// The complaint about an argument that is not there.
pub open spec fn missing_message(name: Seq<char>) -> Seq<char> {
    "Missing argument for "@ + name
}

/// The complaint about an argument whose text the parser turned down,
/// closed by the parser's own reason.
pub open spec fn invalid_message(name: Seq<char>, reason: Seq<char>) -> Seq<char> {
    "Invalid "@ + name + ": "@ + reason
}

/// Reads argument `index` of `args` with `parse`, which turns the argument's
/// text into a value or into the reason why it is none.
///
/// An index past the end gives the complaint that the argument `name` is
/// missing, and `parse` is not called. Otherwise `parse` is called once on
/// the argument: its value is handed on as it is, and its reason comes back
/// inside the complaint that `name` is invalid.
pub fn parse_arg<T, F: FnOnce(&String) -> Result<T, String>>(
    args: &[String],
    index: usize,
    name: &str,
    parse: F,
) -> (r: Result<T, String>)
    requires
        index < args@.len() ==> call_requires(parse, (&args@[index as int],)),
    ensures
        index >= args@.len() ==> (r matches Err(message) && message@ == missing_message(name@)),
        index < args@.len() ==> match r {
            Ok(value) => call_ensures(parse, (&args@[index as int],), Ok::<T, String>(value)),
            Err(message) => exists|reason: String|
                call_ensures(parse, (&args@[index as int],), Err::<T, String>(reason))
                    && message@ == invalid_message(name@, reason@),
        },
{
    if index >= args.len() {
        let mut message = "Missing argument for ".to_owned();
        message.append(name);
        return Err(message);
    }
    match parse(&args[index]) {
        Ok(value) => Ok(value),
        Err(reason) => {
            let mut message = "Invalid ".to_owned();
            message.append(name);
            message.append(": ");
            message.append(reason.as_str());
            Err(message)
        },
    }
}

} // verus!
