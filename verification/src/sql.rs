//! The statements sent to the persistent store.
//!
//! A batch is written to the staging table by one `INSERT` with a group of
//! placeholders for each row. The guard of its `ON CONFLICT` clause is what
//! makes the newer row win. Reconciliation is three statements in one
//! transaction.

use sqlx::types::Decimal;
use vstd::prelude::*;
use vstd::string::StringExecFns;

verus! {

/// The decimal number that the time column is written with.
#[verifier::external_type_specification]
#[verifier::external_body]
pub struct ExDecimal(Decimal);

/// The first timestamp that the time column cannot take: a decimal holds an
/// integer of 96 bits.
pub const TIME_LIMIT: u128 = 0x1_0000_0000_0000_0000_0000_0000;

/// The decimal that `Decimal::from` makes of an integer.
pub uninterp spec fn decimal_of(time: u128) -> Decimal;

/// Calls `Decimal::from`, which makes the decimal of an integer and panics
/// where the integer takes more than 96 bits.
#[verifier::external_body]
fn decimal_from(time: u128) -> (parameter: Decimal)
    requires
        time < TIME_LIMIT,
    ensures
        parameter == decimal_of(time),
{
    Decimal::from(time)
}

/// The timestamp of a row as a parameter for the time column, or `None`
/// where a decimal cannot hold it.
pub fn time_parameter(time: u128) -> (parameter: Option<Decimal>)
    ensures
        parameter == (if time < TIME_LIMIT {
            Some(decimal_of(time))
        } else {
            None::<Decimal>
        }),
{
    if time < TIME_LIMIT {
        Some(decimal_from(time))
    } else {
        None
    }
}

/// The decimal digit of a number below ten.
pub open spec fn digit(d: nat) -> Seq<char> {
    if d == 0 {
        "0"@
    } else if d == 1 {
        "1"@
    } else if d == 2 {
        "2"@
    } else if d == 3 {
        "3"@
    } else if d == 4 {
        "4"@
    } else if d == 5 {
        "5"@
    } else if d == 6 {
        "6"@
    } else if d == 7 {
        "7"@
    } else if d == 8 {
        "8"@
    } else {
        "9"@
    }
}

/// A number in decimal digits, without leading zeros.
pub open spec fn decimal(n: nat) -> Seq<char>
    decreases n,
{
    if n < 10 {
        digit(n)
    } else {
        decimal(n / 10) + digit(n % 10)
    }
}

/// The placeholder of the parameter with the number `n`.
pub open spec fn placeholder(n: nat) -> Seq<char> {
    "$"@ + decimal(n)
}

/// The group of placeholders for row `i` of a batch of SETs.
pub open spec fn set_group(i: nat) -> Seq<char> {
    "("@ + placeholder(3 * i + 1) + ", "@ + placeholder(3 * i + 2) + ", "@ + placeholder(
        3 * i + 3,
    ) + ", 'SET')"@
}

/// The group of placeholders for row `i` of a batch of DELETEs.
pub open spec fn delete_group(i: nat) -> Seq<char> {
    "("@ + placeholder(2 * i + 1) + ", "@ + placeholder(2 * i + 2) + ", 'DELETE')"@
}

/// The groups of the first `rows` rows, with commas between them.
pub open spec fn groups(rows: nat, sets: bool) -> Seq<char>
    decreases rows,
{
    if rows == 0 {
        Seq::empty()
    } else {
        let last = if sets {
            set_group((rows - 1) as nat)
        } else {
            delete_group((rows - 1) as nat)
        };
        if rows == 1 {
            last
        } else {
            groups((rows - 1) as nat, sets) + ","@ + last
        }
    }
}

/// The statement that writes a batch of `rows` SETs to the staging table.
pub open spec fn set_batch_text(rows: nat) -> Seq<char> {
    "INSERT INTO wal_sync (key, time, value, operation) VALUES "@ + groups(rows, true)
        + " ON CONFLICT (key) DO UPDATE SET time = EXCLUDED.time, value = EXCLUDED.value, operation = EXCLUDED.operation WHERE wal_sync.time < EXCLUDED.time"@
}

/// The statement that writes a batch of `rows` DELETEs to the staging table.
pub open spec fn delete_batch_text(rows: nat) -> Seq<char> {
    "INSERT INTO wal_sync (key, time, operation) VALUES "@ + groups(rows, false)
        + " ON CONFLICT (key) DO UPDATE SET time = EXCLUDED.time, operation = EXCLUDED.operation WHERE wal_sync.time < EXCLUDED.time"@
}

/// The digit `d` as text.
fn digit_text(d: u128) -> (text: &'static str)
    requires
        d < 10,
    ensures
        text@ == digit(d as nat),
{
    if d == 0 {
        "0"
    } else if d == 1 {
        "1"
    } else if d == 2 {
        "2"
    } else if d == 3 {
        "3"
    } else if d == 4 {
        "4"
    } else if d == 5 {
        "5"
    } else if d == 6 {
        "6"
    } else if d == 7 {
        "7"
    } else if d == 8 {
        "8"
    } else {
        "9"
    }
}

/// The number `n` in decimal digits.
pub fn decimal_text(n: u128) -> (text: String)
    ensures
        text@ == decimal(n as nat),
    decreases n,
{
    if n < 10 {
        String::from_str(digit_text(n))
    } else {
        decimal_text(n / 10).concat(digit_text(n % 10))
    }
}

/// Appends the placeholder of parameter `n` to `text`.
fn push_placeholder(text: &mut String, n: u128)
    ensures
        final(text)@ == old(text)@ + placeholder(n as nat),
{
    let ghost before = text@;
    text.append("$");
    text.append(decimal_text(n).as_str());
    assert(text@ =~= before + placeholder(n as nat));
}

/// Appends the group of placeholders for row `i`.
fn push_group(text: &mut String, i: usize, sets: bool)
    ensures
        final(text)@ == old(text)@ + (if sets {
            set_group(i as nat)
        } else {
            delete_group(i as nat)
        }),
{
    let ghost before = text@;
    let i = i as u128;
    text.append("(");
    if sets {
        push_placeholder(text, 3 * i + 1);
        text.append(", ");
        push_placeholder(text, 3 * i + 2);
        text.append(", ");
        push_placeholder(text, 3 * i + 3);
        text.append(", 'SET')");
        assert(text@ =~= before + set_group(i as nat));
    } else {
        push_placeholder(text, 2 * i + 1);
        text.append(", ");
        push_placeholder(text, 2 * i + 2);
        text.append(", 'DELETE')");
        assert(text@ =~= before + delete_group(i as nat));
    }
}

/// Appends the groups of `rows` rows, with commas between them.
fn push_groups(text: &mut String, rows: usize, sets: bool)
    ensures
        final(text)@ == old(text)@ + groups(rows as nat, sets),
{
    let ghost before = text@;
    let mut i: usize = 0;
    assert(text@ =~= before + groups(0, sets));
    while i < rows
        invariant
            i <= rows,
            text@ == before + groups(i as nat, sets),
        decreases rows - i,
    {
        let ghost held = text@;
        if i > 0 {
            text.append(",");
        }
        push_group(text, i, sets);
        assert(text@ =~= before + groups((i + 1) as nat, sets));
        i += 1;
    }
}

/// The statement that writes a batch of `rows` SETs to the staging table,
/// or `None` for an empty batch, which is not written.
pub fn set_batch_query(rows: usize) -> (query: Option<String>)
    ensures
        rows == 0 <==> query is None,
        query matches Some(text) ==> text@ == set_batch_text(rows as nat),
{
    if rows == 0 {
        return None;
    }
    let mut text = String::from_str("INSERT INTO wal_sync (key, time, value, operation) VALUES ");
    push_groups(&mut text, rows, true);
    text.append(
        " ON CONFLICT (key) DO UPDATE SET time = EXCLUDED.time, value = EXCLUDED.value, operation = EXCLUDED.operation WHERE wal_sync.time < EXCLUDED.time",
    );
    Some(text)
}

/// The statement that writes a batch of `rows` DELETEs to the staging
/// table, or `None` for an empty batch, which is not written.
pub fn delete_batch_query(rows: usize) -> (query: Option<String>)
    ensures
        rows == 0 <==> query is None,
        query matches Some(text) ==> text@ == delete_batch_text(rows as nat),
{
    if rows == 0 {
        return None;
    }
    let mut text = String::from_str("INSERT INTO wal_sync (key, time, operation) VALUES ");
    push_groups(&mut text, rows, false);
    text.append(
        " ON CONFLICT (key) DO UPDATE SET time = EXCLUDED.time, operation = EXCLUDED.operation WHERE wal_sync.time < EXCLUDED.time",
    );
    Some(text)
}

/// The first statement of reconciliation: every staged SET is written to
/// the canonical table.
pub fn apply_sets_query() -> (text: &'static str)
    ensures
        text@
            == "INSERT INTO kv_store (key, value) SELECT key, value FROM wal_sync WHERE operation = 'SET' ON CONFLICT (key) DO UPDATE SET value = EXCLUDED.value"@,
{
    "INSERT INTO kv_store (key, value) SELECT key, value FROM wal_sync WHERE operation = 'SET' ON CONFLICT (key) DO UPDATE SET value = EXCLUDED.value"
}

/// The second statement of reconciliation: every key with a staged DELETE
/// is removed from the canonical table.
pub fn apply_deletes_query() -> (text: &'static str)
    ensures
        text@
            == "DELETE FROM kv_store WHERE key IN (SELECT key FROM wal_sync WHERE operation = 'DELETE')"@,
{
    "DELETE FROM kv_store WHERE key IN (SELECT key FROM wal_sync WHERE operation = 'DELETE')"
}

/// The third statement of reconciliation: the staging table is emptied.
pub fn clear_staging_query() -> (text: &'static str)
    ensures
        text@ == "DELETE FROM wal_sync"@,
{
    "DELETE FROM wal_sync"
}

/// The statement that reads the canonical table to fill the cache.
pub fn load_query() -> (text: &'static str)
    ensures
        text@ == "SELECT key, value FROM kv_store"@,
{
    "SELECT key, value FROM kv_store"
}

} // verus!
