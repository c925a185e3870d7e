//! SQL text for the staging table that the scans are written to. The
//! station writes only to its own staging table, never to the business
//! tables of the MES; the MES reads the staging table on its own.

use vstd::prelude::*;

verus! {

/// What follows the table name in the statement that creates the table.
pub open spec fn create_table_tail() -> Seq<char> {
    " (\n            id BIGSERIAL PRIMARY KEY,\n            record_key TEXT UNIQUE NOT NULL,\n            sequence BIGINT NOT NULL,\n            scan_ts TIMESTAMP NOT NULL,\n            judgements JSONB NOT NULL,\n            qr_serial TEXT NOT NULL,\n            mo TEXT NOT NULL,\n            overall_ok BOOLEAN NOT NULL,\n            received_at TIMESTAMPTZ NOT NULL DEFAULT now()\n        )"@
}

/// What follows the table name in the statement that inserts one scan;
/// a scan whose record key is already stored is skipped, so sending a
/// line again stores nothing twice.
pub open spec fn insert_tail() -> Seq<char> {
    "\n            (record_key, sequence, scan_ts, judgements, qr_serial, mo, overall_ok)\n         VALUES ($1, $2, $3, $4, $5, $6, $7)\n         ON CONFLICT (record_key) DO NOTHING"@
}

/// The statement that creates the staging table `table` unless it exists.
pub fn create_table_statement(table: &str) -> (stmt: String)
    ensures
        stmt@ == "CREATE TABLE IF NOT EXISTS "@ + table@ + create_table_tail(),
{
    let mut stmt = String::from_str("CREATE TABLE IF NOT EXISTS ");
    stmt.append(table);
    stmt.append(
        " (\n            id BIGSERIAL PRIMARY KEY,\n            record_key TEXT UNIQUE NOT NULL,\n            sequence BIGINT NOT NULL,\n            scan_ts TIMESTAMP NOT NULL,\n            judgements JSONB NOT NULL,\n            qr_serial TEXT NOT NULL,\n            mo TEXT NOT NULL,\n            overall_ok BOOLEAN NOT NULL,\n            received_at TIMESTAMPTZ NOT NULL DEFAULT now()\n        )",
    );
    stmt
}

/// The statement that inserts one scan into `table`, its seven values
/// bound as `$1`..`$7`.
pub fn insert_statement(table: &str) -> (stmt: String)
    ensures
        stmt@ == "INSERT INTO "@ + table@ + insert_tail(),
{
    let mut stmt = String::from_str("INSERT INTO ");
    stmt.append(table);
    stmt.append(
        "\n            (record_key, sequence, scan_ts, judgements, qr_serial, mo, overall_ok)\n         VALUES ($1, $2, $3, $4, $5, $6, $7)\n         ON CONFLICT (record_key) DO NOTHING",
    );
    stmt
}

} // verus!
