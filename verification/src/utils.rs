//! Small helpers on values, and commands whose output the game logs.

use crate::text::{replace_spec, string_bytes};
use vstd::prelude::*;
use vstd::string::*;

verus! {

/// Values whose first element can be mapped.
pub trait Map0<T0, R0>: Sized {
    /// The value with the first element mapped.
    type Output;

    /// This value with `map` applied to its first element.
    fn map0<F: Fn(T0) -> R0>(self, map: F) -> (res: Self::Output)
        requires
            forall|x: T0| call_requires(map, (x,)),
    ;
}

impl<T0, T1, R0> Map0<T0, R0> for (T0, T1) {
    type Output = (R0, T1);

    /// The pair with `map` applied to its first element; the second element is kept.
    fn map0<F: Fn(T0) -> R0>(self, map: F) -> (res: (R0, T1))
        ensures
            call_ensures(map, (self.0,), res.0),
            res.1 == self.1,
    {
        (map(self.0), self.1)
    }
}

/// `b` as the content of a JSON string: each `\\` and each `"` escaped by a `\\`.
pub open spec fn escape_json_spec(b: Seq<u8>) -> Seq<u8> {
    replace_spec(
        replace_spec(b, seq!['\\' as u8], seq!['\\' as u8, '\\' as u8]),
        seq!['"' as u8],
        seq!['\\' as u8, '"' as u8],
    )
}

/// The command that summons a command block minecart which runs `command` and logs its output,
/// named `name` (a JSON text component) where there is one.
pub open spec fn logged_cart_spec(name: Option<Seq<u8>>, command: Seq<u8>) -> Seq<u8> {
    let custom_name = match name {
        Some(n) => "CustomName:\"".spec_bytes() + escape_json_spec(n) + "\",".spec_bytes(),
        None => Seq::empty(),
    };
    "execute at @e[type=area_effect_cloud,tag=minect_connection,limit=1] run summon command_block_minecart ~ ~ ~ {".spec_bytes()
        + custom_name + "Command:\"".spec_bytes() + escape_json_spec(command)
        + "\",Tags:[minect,minect_impulse],LastExecution:1L,TrackOutput:false,}".spec_bytes()
}

/// The JSON text component whose text is `text`.
pub open spec fn json_text_spec(text: Seq<u8>) -> Seq<u8> {
    "{\"text\":\"".spec_bytes() + escape_json_spec(text) + "\"}".spec_bytes()
}

/// The command of minect's `logged_cart_command`: it summons a command block minecart that runs
/// `command` once, so that the game logs its output. minect writes a fixed prefix, then `command`
/// with `\\` and `"` escaped inside `Command:"..."`, then fixed tags.
#[verifier::external_body]
fn cart_command(command: &str) -> (res: String)
    ensures
        string_bytes(&res) == logged_cart_spec(None, command.spec_bytes()),
{
    minect::command::logged_cart_command(command)
}

/// The command of minect's `named_logged_cart_command`: as `cart_command`, with the minecart
/// named by the JSON text component of `name`, escaped inside `CustomName:"..."`.
#[verifier::external_body]
fn named_cart_command(name: &str, command: &str) -> (res: String)
    ensures
        string_bytes(&res) == logged_cart_spec(Some(json_text_spec(name.spec_bytes())), command.spec_bytes()),
{
    minect::command::named_logged_cart_command(name, command)
}

/// The command that runs `command` so that the game logs its output.
pub fn logged_command_str(command: &str) -> (res: String)
    ensures
        string_bytes(&res) == logged_cart_spec(None, command.spec_bytes()),
{
    cart_command(command)
}

/// The command that runs `command` so that the game logs its output.
pub fn logged_command(command: String) -> (res: String)
    ensures
        string_bytes(&res) == logged_cart_spec(None, string_bytes(&command)),
{
    cart_command(command.as_str())
}

/// The command that runs `command` so that the game logs its output under the name `name`.
pub fn named_logged_command(name: &str, command: String) -> (res: String)
    ensures
        string_bytes(&res) == logged_cart_spec(
            Some(json_text_spec(name.spec_bytes())),
            string_bytes(&command),
        ),
{
    named_cart_command(name, command.as_str())
}

} // verus!
