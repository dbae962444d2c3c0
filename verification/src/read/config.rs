//! Saving the settings: the region and the window positions are written into
//! the text of `config.toml` (by `toml_edit`, which keeps the rest of the
//! file, comments and layout as they are).
use vstd::prelude::*;
use crate::protocol::text_of;
use crate::read::Config;

verus! {

/// What setting `table.key` to the integer `v` makes of the TOML text `doc`
/// (as `toml_edit` edits and prints it); `None` when `doc` does not parse or
/// `table` names something that holds no keys.
pub uninterp spec fn toml_with_int(doc: Seq<char>, table: Seq<char>, key: Seq<char>, v: i64) -> Option<Seq<char>>;

/// What removing `table` makes of the TOML text `doc` (as `toml_edit`
/// prints it); `None` when `doc` does not parse.
pub uninterp spec fn toml_without(doc: Seq<char>, table: Seq<char>) -> Option<Seq<char>>;

/// Calls `toml_edit`: parses `doc` into a `Document`, sets `doc[table][key]`
/// to the integer `v` (`Item::get_mut` on the table entry, which creates an
/// inline table where there is none), and prints the document.
///
/// Claimed of it: the result is a function of the arguments alone. Where
/// indexing with `[]` would panic (the table entry is neither a table nor an
/// inline table), `get_mut` gives `None`, and so does this call.
#[verifier::external_body]
fn toml_set_int(doc: &str, table: &str, key: &str, v: i64) -> (r: Option<String>)
    ensures
        r matches Some(t) ==> toml_with_int(doc@, table@, key@, v) == Some(t@),
        r is None ==> toml_with_int(doc@, table@, key@, v) is None,
{
    let mut d: toml_edit::Document = doc.parse().ok()?;
    let slot = d[table].get_mut(key)?;
    *slot = toml_edit::value(v);
    Some(d.to_string())
}

/// Calls `toml_edit`: parses `doc` into a `Document`, removes `table` from
/// its root, and prints the document.
///
/// Claimed of it: the result is a function of the arguments alone.
#[verifier::external_body]
fn toml_remove(doc: &str, table: &str) -> (r: Option<String>)
    ensures
        r matches Some(t) ==> toml_without(doc@, table@) == Some(t@),
        r is None ==> toml_without(doc@, table@) is None,
{
    let mut d: toml_edit::Document = doc.parse().ok()?;
    d.remove(table);
    Some(d.to_string())
}

/// `toml_with_int` after an earlier step that may have failed.
pub open spec fn then_with_int(doc: Option<Seq<char>>, table: Seq<char>, key: Seq<char>, v: i64) -> Option<Seq<char>> {
    match doc {
        Some(d) => toml_with_int(d, table, key, v),
        None => None,
    }
}

/// The text of `config.toml` after saving `config` into `existing` (the
/// empty text when there is no file): the region's `x`, `y`, `width` and
/// `height` are set under `region`, or `region` is removed when there is no
/// region; then each window position that is set is written under its table
/// (one that is not set is left as the file has it).
pub open spec fn saved_config_text(existing: Seq<char>, config: Config) -> Option<Seq<char>> {
    let with_region = match config.region {
        Some(r) => then_with_int(
            then_with_int(
                then_with_int(toml_with_int(existing, "region"@, "x"@, r.x as i64), "region"@, "y"@, r.y as i64),
                "region"@,
                "width"@,
                r.width as i64,
            ),
            "region"@,
            "height"@,
            r.height as i64,
        ),
        None => toml_without(existing, "region"@),
    };
    let with_generate = match config.generate_window_pos {
        Some(p) => then_with_int(
            then_with_int(with_region, "generate_window_pos"@, "x"@, p.x as i64),
            "generate_window_pos"@,
            "y"@,
            p.y as i64,
        ),
        None => with_region,
    };
    match config.read_window_pos {
        Some(p) => then_with_int(
            then_with_int(with_generate, "read_window_pos"@, "x"@, p.x as i64),
            "read_window_pos"@,
            "y"@,
            p.y as i64,
        ),
        None => with_generate,
    }
}

fn set_after(doc: Option<String>, table: &str, key: &str, v: i64) -> (r: Option<String>)
    ensures
        text_of(r) == then_with_int(text_of(doc), table@, key@, v),
{
    match doc {
        Some(d) => toml_set_int(d.as_str(), table, key, v),
        None => None,
    }
}

/// The new text of `config.toml` when `config` is saved: `existing` is the
/// file's text, `None` when there is no file. `None` when a step fails (the
/// text does not parse, or `region` or a window table names something that
/// holds no keys).
pub fn updated_config_text(existing: Option<&str>, config: &Config) -> (r: Option<String>)
    ensures
        text_of(r) == saved_config_text(
            match existing {
                Some(t) => t@,
                None => ""@,
            },
            *config,
        ),
{
    let base: &str = match existing {
        Some(t) => t,
        None => "",
    };
    let mut doc = match config.region {
        Some(r) => {
            let d = toml_set_int(base, "region", "x", r.x as i64);
            let d = set_after(d, "region", "y", r.y as i64);
            let d = set_after(d, "region", "width", r.width as i64);
            set_after(d, "region", "height", r.height as i64)
        },
        None => toml_remove(base, "region"),
    };
    if let Some(p) = config.generate_window_pos {
        doc = set_after(doc, "generate_window_pos", "x", p.x as i64);
        doc = set_after(doc, "generate_window_pos", "y", p.y as i64);
    }
    if let Some(p) = config.read_window_pos {
        doc = set_after(doc, "read_window_pos", "x", p.x as i64);
        doc = set_after(doc, "read_window_pos", "y", p.y as i64);
    }
    doc
}

/// Saving a read-window position writes its `x` as `x` and its `y` as `y`
/// under `read_window_pos`, last, on top of what saving without it writes.
pub proof fn lemma_saved_read_position(existing: Seq<char>, config: Config, p: crate::read::WindowPosition)
    requires
        config.read_window_pos == Some(p),
    ensures
        saved_config_text(existing, config) == then_with_int(
            then_with_int(
                saved_config_text(existing, Config { read_window_pos: None, ..config }),
                "read_window_pos"@,
                "x"@,
                p.x as i64,
            ),
            "read_window_pos"@,
            "y"@,
            p.y as i64,
        ),
{
}

/// Saving a generate-window position (with no read-window position) writes
/// its `x` as `x` and its `y` as `y` under `generate_window_pos`, on top of
/// what saving without it writes.
pub proof fn lemma_saved_generate_position(
    existing: Seq<char>,
    config: Config,
    p: crate::read::WindowPosition,
)
    requires
        config.generate_window_pos == Some(p),
        config.read_window_pos is None,
    ensures
        saved_config_text(existing, config) == then_with_int(
            then_with_int(
                saved_config_text(existing, Config { generate_window_pos: None, ..config }),
                "generate_window_pos"@,
                "x"@,
                p.x as i64,
            ),
            "generate_window_pos"@,
            "y"@,
            p.y as i64,
        ),
{
}

/// With no window positions, saving a region writes, into the existing text,
/// its `x`, `y`, `width` and `height` under the keys of those names in
/// `region`; saving no region removes `region` and changes nothing else.
pub proof fn lemma_saved_region(existing: Seq<char>, config: Config)
    requires
        config.generate_window_pos is None,
        config.read_window_pos is None,
    ensures
        config.region is None ==> saved_config_text(existing, config) == toml_without(
            existing,
            "region"@,
        ),
        config.region matches Some(r) ==> saved_config_text(existing, config) == then_with_int(
            then_with_int(
                then_with_int(
                    toml_with_int(existing, "region"@, "x"@, r.x as i64),
                    "region"@,
                    "y"@,
                    r.y as i64,
                ),
                "region"@,
                "width"@,
                r.width as i64,
            ),
            "region"@,
            "height"@,
            r.height as i64,
        ),
{
}

} // verus!
