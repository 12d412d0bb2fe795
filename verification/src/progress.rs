//! What is shown of each worker while a run goes on.
use crate::text::{append_decimal, decimal};
use vstd::prelude::*;

verus! {

/// The ending of the word for a number of batches.
pub open spec fn plural(n: nat) -> Seq<char> {
    if n == 1 {
        ""@
    } else {
        "es"@
    }
}

/// The ending of the word for a number of batches.
pub fn plural_ending(n: usize) -> (ending: &'static str)
    ensures
        ending@ == plural(n as nat),
        n == 1 ==> ending@ == ""@,
        n != 1 ==> ending@ == "es"@,
{
    if n == 1 {
        ""
    } else {
        "es"
    }
}

/// A worker is being connected to.
pub fn connecting_message(hostname: &str) -> (message: String)
    ensures
        message@ == hostname@ + "  — connecting"@,
{
    hostname.to_owned().concat("  — connecting")
}

/// A worker builds the tests.
pub fn building_message(hostname: &str) -> (message: String)
    ensures
        message@ == hostname@ + "  — ⏳ building tests..."@,
{
    hostname.to_owned().concat("  — ⏳ building tests...")
}

/// A worker has nothing to do yet.
pub fn idle_message(hostname: &str) -> (message: String)
    ensures
        message@ == hostname@ + "  — ○ idle, waiting for batch"@,
{
    hostname.to_owned().concat("  — ○ idle, waiting for batch")
}

/// A worker runs batch `index` of `total` with `tests` tests while `remaining`
/// batches wait.
pub open spec fn running_text(
    hostname: Seq<char>,
    index: nat,
    total: nat,
    tests: nat,
    remaining: nat,
) -> Seq<char> {
    hostname + "  — ⚙ batch "@ + decimal(index) + "/"@ + decimal(total) + " ("@ + decimal(tests)
        + " tests) [queue: "@ + decimal(remaining) + " remaining]"@
}

/// A worker runs a batch.
pub fn batch_message(
    hostname: &str,
    index: usize,
    total: usize,
    tests: usize,
    remaining: usize,
) -> (message: String)
    ensures
        message@ == running_text(
            hostname@,
            index as nat,
            total as nat,
            tests as nat,
            remaining as nat,
        ),
{
    let mut message = hostname.to_owned();
    message.append("  — ⚙ batch ");
    append_decimal(&mut message, index as u64);
    message.append("/");
    append_decimal(&mut message, total as u64);
    message.append(" (");
    append_decimal(&mut message, tests as u64);
    message.append(" tests) [queue: ");
    append_decimal(&mut message, remaining as u64);
    message.append(" remaining]");
    message
}

/// A worker stops after `batches` batches.
pub open spec fn done_text(hostname: Seq<char>, batches: nat) -> Seq<char> {
    hostname + "  — ✓ done (ran "@ + decimal(batches) + " batch"@ + plural(batches) + ")"@
}

/// A worker stops.
pub fn done_message(hostname: &str, batches: usize) -> (message: String)
    ensures
        message@ == done_text(hostname@, batches as nat),
{
    let mut message = hostname.to_owned();
    message.append("  — ✓ done (ran ");
    append_decimal(&mut message, batches as u64);
    message.append(" batch");
    message.append(plural_ending(batches));
    message.append(")");
    message
}

/// What is shown of a worker names the worker and the numbers: of the batch, of all
/// batches, of the tests in it and of the batches that wait, and in the end of the
/// batches that the worker ran.
pub proof fn messages_name_their_numbers(
    hostname: Seq<char>,
    index: nat,
    total: nat,
    tests: nat,
    remaining: nat,
)
    ensures
        running_text(hostname, index, total, tests, remaining) == hostname + "  — ⚙ batch "@
            + decimal(index) + "/"@ + decimal(total) + " ("@ + decimal(tests) + " tests) [queue: "@
            + decimal(remaining) + " remaining]"@,
        total == 1 ==> done_text(hostname, total) == hostname + "  — ✓ done (ran "@ + decimal(total)
            + " batch"@ + ""@ + ")"@,
        total != 1 ==> done_text(hostname, total) == hostname + "  — ✓ done (ran "@ + decimal(total)
            + " batch"@ + "es"@ + ")"@,
{
}

} // verus!
