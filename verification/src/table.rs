use vstd::prelude::*;

use rusqlite::OptionalExtension;

verus! {

/// Largest count the table can store: sqlite integers are signed 64-bit.
pub const MAX_COUNT: u64 = 0x7fff_ffff_ffff_ffff;

/// rusqlite's handle to the sqlite database that stores the table.
#[verifier::external_type_specification]
#[verifier::external_body]
pub struct ExConnection(rusqlite::Connection);

/// rusqlite's error type, as the trusted wrappers report it.
#[verifier::external_type_specification]
#[verifier::external_body]
pub struct ExRusqliteError(rusqlite::Error);

/// The rows of the frequency table behind `conn`: each stored word's
/// cumulative count.
pub uninterp spec fn freqs_of(conn: rusqlite::Connection) -> Map<Seq<char>, int>;

/// Every state the table reaches through this interface: finitely many
/// non-empty words, each with a storable non-negative count.
pub open spec fn table_wf(m: Map<Seq<char>, int>) -> bool {
    &&& m.dom().finite()
    &&& forall|w: Seq<char>| #[trigger] m.dom().contains(w) ==> 0 <= m[w] <= MAX_COUNT
    &&& forall|w: Seq<char>| #[trigger] m.dom().contains(w) ==> w.len() > 0
}

/// Relies on rusqlite's `Connection::execute_batch`: dropping and
/// recreating the `freqs` table leaves it empty.
#[verifier::external_body]
pub fn reset_table(conn: &mut rusqlite::Connection) -> (r: Result<(), rusqlite::Error>)
    ensures
        match r {
            Ok(_) => freqs_of(*final(conn)) == Map::<Seq<char>, int>::empty(),
            Err(_) => true,
        },
{
    conn.execute_batch(
        "DROP TABLE IF EXISTS freqs;
         CREATE TABLE freqs (word TEXT PRIMARY KEY, count INTEGER);",
    )
}

/// Relies on rusqlite's `Connection::query_row` with `optional`:
/// `Ok(Some(c))` is the count stored for `word`, `Ok(None)` means the
/// table has no row for it.
#[verifier::external_body]
pub fn get_count(conn: &rusqlite::Connection, word: &str) -> (r: Result<
    Option<i64>,
    rusqlite::Error,
>)
    ensures
        match r {
            Ok(Some(c)) => freqs_of(*conn).dom().contains(word@) && freqs_of(*conn)[word@]
                == c as int,
            Ok(None) => !freqs_of(*conn).dom().contains(word@),
            Err(_) => true,
        },
{
    conn.query_row("SELECT count FROM freqs WHERE word = ?1", [word], |row| row.get(0)).optional()
}

/// Relies on sqlite's `INSERT ... ON CONFLICT DO UPDATE` through
/// `Connection::execute`: afterwards the row for `word` holds `count`,
/// whether or not the word was present before.
#[verifier::external_body]
pub fn upsert_count(conn: &mut rusqlite::Connection, word: &str, count: u64) -> (r: Result<
    (),
    rusqlite::Error,
>)
    requires
        count <= MAX_COUNT,
    ensures
        match r {
            Ok(_) => freqs_of(*final(conn)) == freqs_of(*old(conn)).insert(word@, count as int),
            Err(_) => true,
        },
{
    match conn.execute(
        "INSERT INTO freqs (word, count) VALUES (?1, ?2)
         ON CONFLICT(word) DO UPDATE SET count = excluded.count",
        (word, count as i64),
    ) {
        Ok(_) => Ok(()),
        Err(e) => Err(e),
    }
}

/// Relies on rusqlite's `prepare` and `Statement::query_map`: returns
/// every row of the table, each word exactly once, in unspecified order.
#[verifier::external_body]
pub fn scan_all(conn: &rusqlite::Connection) -> (r: Result<Vec<(String, i64)>, rusqlite::Error>)
    ensures
        match r {
            Ok(rows) => {
                let m = freqs_of(*conn);
                &&& forall|i: int, j: int|
                    0 <= i < j < rows@.len() ==> #[trigger] rows@[i].0@ != #[trigger] rows@[j].0@
                &&& forall|i: int|
                    0 <= i < rows@.len() ==> m.dom().contains(#[trigger] rows@[i].0@)
                        && m[rows@[i].0@] == rows@[i].1 as int
                &&& forall|w: Seq<char>|
                    #[trigger] m.dom().contains(w) ==> exists|i: int|
                        0 <= i < rows@.len() && #[trigger] rows@[i].0@ == w
            },
            Err(_) => true,
        },
{
    let mut stmt = conn.prepare("SELECT word, count FROM freqs")?;
    let rows = stmt.query_map([], |row| Ok((row.get(0)?, row.get(1)?)))?;
    rows.collect()
}

} // verus!
