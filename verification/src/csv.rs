use crate::coord::Crs;
use crate::error::{decimal_string, decimal_text, ErrorView, N3gbError};
use vstd::prelude::*;
use vstd::string::StringExecFns;

verus! {

/// Text format in which a cell's outline is written to a table.
#[derive(Debug, Clone, Copy, PartialEq, Eq, Structural)]
pub enum GeometryFormat {
    Wkt,
    GeoJson,
}

/// Where a table keeps the position of each row.
#[derive(Debug, Clone)]
pub enum CoordinateSource {
    /// One column holding a geometry as text.
    GeometryColumn(String),
    /// Two columns holding the two coordinates.
    CoordinateColumns { x_column: String, y_column: String },
}

/// The mathematical value of a [`CoordinateSource`].
pub ghost enum CoordinateSourceView {
    GeometryColumn(Seq<char>),
    CoordinateColumns { x_column: Seq<char>, y_column: Seq<char> },
}

impl View for CoordinateSource {
    type V = CoordinateSourceView;

    open spec fn view(&self) -> CoordinateSourceView {
        match self {
            CoordinateSource::GeometryColumn(c) => CoordinateSourceView::GeometryColumn(c@),
            CoordinateSource::CoordinateColumns { x_column, y_column } => {
                CoordinateSourceView::CoordinateColumns { x_column: x_column@, y_column: y_column@ }
            },
        }
    }
}

/// How a table is turned into a table of cells.
#[derive(Debug, Clone)]
pub struct CsvHexConfig {
    /// Where the position of a row is found.
    pub source: CoordinateSource,
    /// Columns to leave out of the output, besides the source columns.
    pub exclude_columns: Vec<String>,
    /// Zoom level of the cells.
    pub zoom_level: u8,
    /// Reference system of the positions in the table.
    pub crs: Crs,
    /// Whether, and in which format, the outline of each cell is written.
    pub include_hex_geometry: Option<GeometryFormat>,
}

impl CsvHexConfig {
    /// A configuration that reads geometries from `geometry_column`: no
    /// column excluded, positions in WGS84, no outline written.
    pub fn new(geometry_column: &str, zoom_level: u8) -> (config: CsvHexConfig)
        ensures
            config.source@ == CoordinateSourceView::GeometryColumn(geometry_column@),
            config.exclude_columns@.len() == 0,
            config.zoom_level == zoom_level,
            config.crs == Crs::Wgs84,
            config.include_hex_geometry is None,
    {
        CsvHexConfig {
            source: CoordinateSource::GeometryColumn(geometry_column.to_owned()),
            exclude_columns: Vec::new(),
            zoom_level,
            crs: Crs::default(),
            include_hex_geometry: None,
        }
    }

    /// A configuration that reads the two coordinates from `x_column` and
    /// `y_column`: no column excluded, positions in WGS84, no outline
    /// written.
    pub fn from_coords(x_column: &str, y_column: &str, zoom_level: u8) -> (config: CsvHexConfig)
        ensures
            config.source@ == (CoordinateSourceView::CoordinateColumns {
                x_column: x_column@,
                y_column: y_column@,
            }),
            config.exclude_columns@.len() == 0,
            config.zoom_level == zoom_level,
            config.crs == Crs::Wgs84,
            config.include_hex_geometry is None,
    {
        CsvHexConfig {
            source: CoordinateSource::CoordinateColumns {
                x_column: x_column.to_owned(),
                y_column: y_column.to_owned(),
            },
            exclude_columns: Vec::new(),
            zoom_level,
            crs: Crs::default(),
            include_hex_geometry: None,
        }
    }

    /// The same configuration with `columns` as the columns to leave out.
    pub fn exclude(self, columns: Vec<String>) -> (config: CsvHexConfig)
        ensures
            config.exclude_columns == columns,
            config.source == self.source,
            config.zoom_level == self.zoom_level,
            config.crs == self.crs,
            config.include_hex_geometry == self.include_hex_geometry,
    {
        let mut config = self;
        config.exclude_columns = columns;
        config
    }

    /// The same configuration with positions read in `crs`.
    pub fn crs(self, crs: Crs) -> (config: CsvHexConfig)
        ensures
            config.crs == crs,
            config.source == self.source,
            config.exclude_columns == self.exclude_columns,
            config.zoom_level == self.zoom_level,
            config.include_hex_geometry == self.include_hex_geometry,
    {
        let mut config = self;
        config.crs = crs;
        config
    }

    /// The same configuration, writing each cell's outline in `format`.
    pub fn with_hex_geometry(self, format: GeometryFormat) -> (config: CsvHexConfig)
        ensures
            config.include_hex_geometry == Some(format),
            config.source == self.source,
            config.exclude_columns == self.exclude_columns,
            config.zoom_level == self.zoom_level,
            config.crs == self.crs,
    {
        let mut config = self;
        config.include_hex_geometry = Some(format);
        config
    }
}

/// Where in a row the position is found: the index of the geometry column,
/// or those of the two coordinate columns.
#[derive(Debug, Clone, Copy, PartialEq, Eq, Structural)]
pub enum SourceIndices {
    Geometry(usize),
    Coordinates { x_idx: usize, y_idx: usize },
}

impl SourceIndices {
    /// Whether column `i` is one the position is read from.
    pub open spec fn covers(self, i: int) -> bool {
        match self {
            SourceIndices::Geometry(idx) => i == idx,
            SourceIndices::Coordinates { x_idx, y_idx } => i == x_idx || i == y_idx,
        }
    }

    /// Whether each index is that of a column of a table with `n` columns.
    pub open spec fn within(self, n: int) -> bool {
        match self {
            SourceIndices::Geometry(idx) => idx < n,
            SourceIndices::Coordinates { x_idx, y_idx } => x_idx < n && y_idx < n,
        }
    }
}

/// The texts of a sequence of strings.
pub open spec fn texts(fields: Seq<String>) -> Seq<Seq<char>> {
    Seq::new(fields.len(), |i: int| fields[i]@)
}

/// The index of the first of `headers` that is `name`, if there is one.
pub open spec fn first_position(headers: Seq<Seq<char>>, name: Seq<char>) -> Option<int>
    decreases headers.len(),
{
    if headers.len() == 0 {
        None
    } else if first_position(headers.drop_last(), name) is Some {
        first_position(headers.drop_last(), name)
    } else if headers.last() == name {
        Some(headers.len() - 1)
    } else {
        None
    }
}

/// The error for a column that has no name.
pub open spec fn empty_name_error(label: Seq<char>) -> ErrorView {
    ErrorView::CsvError(label + " column name cannot be empty"@)
}

/// The error for a column that the table does not have.
pub open spec fn not_found_error(label: Seq<char>, name: Seq<char>) -> ErrorView {
    ErrorView::CsvError(label + " column '"@ + name + "' not found"@)
}

/// The error for a row that is too short to have the column at `idx`.
pub open spec fn missing_field_error(label: Seq<char>, idx: nat) -> ErrorView {
    ErrorView::CsvError("Missing "@ + label + " column at index "@ + decimal_text(idx))
}

/// Where the position is found in a table with the given headers, or why
/// it cannot be: a column without a name is refused first, the easting
/// column before the northing column, and after that a column that the
/// table does not have, in the same order.
pub open spec fn source_indices(headers: Seq<Seq<char>>, source: CoordinateSourceView) -> Result<
    SourceIndices,
    ErrorView,
> {
    match source {
        CoordinateSourceView::GeometryColumn(name) => if name.len() == 0 {
            Err(empty_name_error("Geometry"@))
        } else {
            match first_position(headers, name) {
                None => Err(not_found_error("Geometry"@, name)),
                Some(i) => Ok(SourceIndices::Geometry(i as usize)),
            }
        },
        CoordinateSourceView::CoordinateColumns { x_column, y_column } => if x_column.len() == 0 {
            Err(empty_name_error("X"@))
        } else if y_column.len() == 0 {
            Err(empty_name_error("Y"@))
        } else {
            match (first_position(headers, x_column), first_position(headers, y_column)) {
                (None, _) => Err(not_found_error("X"@, x_column)),
                (Some(_), None) => Err(not_found_error("Y"@, y_column)),
                (Some(x), Some(y)) => Ok(
                    SourceIndices::Coordinates { x_idx: x as usize, y_idx: y as usize },
                ),
            }
        },
    }
}

/// Whether column `i` is left out of the output: it is one the position is
/// read from, or the first column with one of the names to leave out.
pub open spec fn excluded(
    headers: Seq<Seq<char>>,
    source: SourceIndices,
    names: Seq<Seq<char>>,
    i: int,
) -> bool {
    source.covers(i) || exists|k: int|
        0 <= k < names.len() && first_position(headers, #[trigger] names[k]) == Some(i)
}

/// The first `n` of `fields` without those that `keep` marks as left out.
/// A field beyond the end of `keep` stays.
pub open spec fn kept_fields(fields: Seq<Seq<char>>, keep: Seq<bool>, n: int) -> Seq<Seq<char>>
    decreases n,
{
    if n <= 0 {
        Seq::empty()
    } else if n - 1 >= keep.len() || keep[n - 1] {
        kept_fields(fields, keep, n - 1).push(fields[n - 1])
    } else {
        kept_fields(fields, keep, n - 1)
    }
}

/// What goes before the kept fields of a row: the identifier, and the
/// outline where there is one.
pub open spec fn row_front(id: Seq<char>, outline: Option<Seq<char>>) -> Seq<Seq<char>> {
    match outline {
        None => seq![id],
        Some(text) => seq![id, text],
    }
}

/// The text of a string that may be absent.
pub open spec fn option_text(text: Option<String>) -> Option<Seq<char>> {
    match text {
        Some(t) => Some(t@),
        None => None,
    }
}

/// A first position is a position in the sequence, and holds the name.
pub proof fn lemma_first_position(headers: Seq<Seq<char>>, name: Seq<char>)
    ensures
        first_position(headers, name) matches Some(i) ==> 0 <= i < headers.len() && headers[i]
            == name,
        first_position(headers, name) is None ==> forall|j: int|
            0 <= j < headers.len() ==> headers[j] != name,
    decreases headers.len(),
{
    if headers.len() > 0 {
        lemma_first_position(headers.drop_last(), name);
        if first_position(headers, name) is None {
            assert forall|j: int| 0 <= j < headers.len() implies headers[j] != name by {
                if j < headers.len() - 1 {
                    assert(headers.drop_last()[j] == headers[j]);
                }
            }
        } else {
            let i = first_position(headers, name)->Some_0;
            if i < headers.len() - 1 {
                assert(headers.drop_last()[i] == headers[i]);
            }
        }
    }
}

/// The index of the first of `headers` that is `name`.
pub fn position(headers: &Vec<String>, name: &String) -> (found: Option<usize>)
    ensures
        match found {
            Some(i) => first_position(texts(headers@), name@) == Some(i as int),
            None => first_position(texts(headers@), name@) is None,
        },
{
    let ghost all = texts(headers@);
    let mut k: usize = 0;
    assert(all.take(0) =~= Seq::empty());
    while k < headers.len()
        invariant
            k <= headers@.len(),
            all == texts(headers@),
            first_position(all.take(k as int), name@) is None,
        decreases headers@.len() - k,
    {
        proof {
            assert(all.take(k + 1).drop_last() =~= all.take(k as int));
            assert(all.take(k + 1).last() == headers@[k as int]@);
        }
        if headers[k] == *name {
            proof {
                lemma_first_position_extends(all, k + 1, name@);
            }
            return Some(k);
        }
        k = k + 1;
    }
    assert(all.take(k as int) =~= all);
    None
}

/// What is first in a prefix is first in the whole sequence.
proof fn lemma_first_position_extends(headers: Seq<Seq<char>>, n: int, name: Seq<char>)
    requires
        0 <= n <= headers.len(),
        first_position(headers.take(n), name) is Some,
    ensures
        first_position(headers, name) == first_position(headers.take(n), name),
    decreases headers.len() - n,
{
    if n == headers.len() {
        assert(headers.take(n) =~= headers);
    } else {
        assert(headers.take(n + 1).drop_last() =~= headers.take(n));
        lemma_first_position_extends(headers, n + 1, name);
    }
}

/// The error for a column that has no name.
fn empty_name(label: &str) -> (e: N3gbError)
    ensures
        e@ == empty_name_error(label@),
{
    N3gbError::CsvError(String::from_str(label).concat(" column name cannot be empty"))
}

/// The error for a column that the table does not have.
fn not_found(label: &str, name: &String) -> (e: N3gbError)
    ensures
        e@ == not_found_error(label@, name@),
{
    N3gbError::CsvError(
        String::from_str(label).concat(" column '").concat(name.as_str()).concat("' not found"),
    )
}

/// Finds the columns that the position is read from.
pub fn resolve_source(headers: &Vec<String>, source: &CoordinateSource) -> (r: Result<
    SourceIndices,
    N3gbError,
>)
    ensures
        match r {
            Ok(indices) => source_indices(texts(headers@), source@) == Ok::<_, ErrorView>(indices)
                && indices.within(headers@.len() as int),
            Err(e) => source_indices(texts(headers@), source@) == Err::<SourceIndices, _>(e@),
        },
{
    match source {
        CoordinateSource::GeometryColumn(name) => {
            if name.as_str().is_empty() {
                return Err(empty_name("Geometry"));
            }
            proof {
                lemma_first_position(texts(headers@), name@);
            }
            match position(headers, name) {
                None => Err(not_found("Geometry", name)),
                Some(idx) => Ok(SourceIndices::Geometry(idx)),
            }
        },
        CoordinateSource::CoordinateColumns { x_column, y_column } => {
            if x_column.as_str().is_empty() {
                return Err(empty_name("X"));
            }
            if y_column.as_str().is_empty() {
                return Err(empty_name("Y"));
            }
            proof {
                lemma_first_position(texts(headers@), x_column@);
                lemma_first_position(texts(headers@), y_column@);
            }
            let x_idx = match position(headers, x_column) {
                None => { return Err(not_found("X", x_column)); },
                Some(idx) => idx,
            };
            let y_idx = match position(headers, y_column) {
                None => { return Err(not_found("Y", y_column)); },
                Some(idx) => idx,
            };
            Ok(SourceIndices::Coordinates { x_idx, y_idx })
        },
    }
}

/// Marks the columns that stay in the output: `true` for each column that
/// is not [`excluded`].
pub fn column_mask(headers: &Vec<String>, source: SourceIndices, exclude_columns: &Vec<String>) -> (keep:
    Vec<bool>)
    requires
        source.within(headers@.len() as int),
    ensures
        keep@.len() == headers@.len(),
        forall|i: int|
            0 <= i < keep@.len() ==> keep@[i] == !excluded(
                texts(headers@),
                source,
                texts(exclude_columns@),
                i,
            ),
{
    let ghost all = texts(headers@);
    let ghost names = texts(exclude_columns@);
    let mut keep: Vec<bool> = Vec::new();
    let mut i: usize = 0;
    while i < headers.len()
        invariant
            i <= headers@.len(),
            keep@.len() == i,
            forall|j: int| 0 <= j < i ==> keep@[j] == !source.covers(j),
        decreases headers@.len() - i,
    {
        let covered = match source {
            SourceIndices::Geometry(idx) => i == idx,
            SourceIndices::Coordinates { x_idx, y_idx } => i == x_idx || i == y_idx,
        };
        keep.push(!covered);
        i = i + 1;
    }
    let mut k: usize = 0;
    while k < exclude_columns.len()
        invariant
            k <= exclude_columns@.len(),
            all == texts(headers@),
            names == texts(exclude_columns@),
            keep@.len() == headers@.len(),
            forall|j: int|
                0 <= j < keep@.len() ==> keep@[j] == !excluded(all, source, names.take(k as int), j),
        decreases exclude_columns@.len() - k,
    {
        let ghost before = keep@;
        proof {
            lemma_first_position(all, names[k as int]);
        }
        let found = position(headers, &exclude_columns[k]);
        match found {
            Some(idx) => {
                keep.set(idx, false);
            },
            None => {},
        }
        proof {
            let old_names = names.take(k as int);
            let new_names = names.take(k + 1);
            assert forall|j: int| 0 <= j < keep@.len() implies keep@[j] == !excluded(
                all,
                source,
                new_names,
                j,
            ) by {
                if excluded(all, source, old_names, j) {
                    if !source.covers(j) {
                        let m = choose|m: int|
                            0 <= m < old_names.len() && first_position(all, #[trigger] old_names[m])
                                == Some(j);
                        assert(new_names[m] == old_names[m]);
                    }
                } else if first_position(all, names[k as int]) == Some(j) {
                    assert(new_names[k as int] == names[k as int]);
                } else if excluded(all, source, new_names, j) {
                    let m = choose|m: int|
                        0 <= m < new_names.len() && first_position(all, #[trigger] new_names[m])
                            == Some(j);
                    if m < k {
                        assert(old_names[m] == new_names[m]);
                    }
                }
            }
        }
        k = k + 1;
    }
    assert(names.take(k as int) =~= names);
    keep
}

/// Appends to `row` the fields that stay.
fn push_kept(row: &mut Vec<String>, fields: &Vec<String>, keep: &Vec<bool>)
    ensures
        texts(final(row)@) == texts(old(row)@) + kept_fields(
            texts(fields@),
            keep@,
            fields@.len() as int,
        ),
{
    let ghost start = texts(row@);
    let mut i: usize = 0;
    assert(texts(row@) =~= start + kept_fields(texts(fields@), keep@, 0));
    while i < fields.len()
        invariant
            i <= fields@.len(),
            texts(row@) == start + kept_fields(texts(fields@), keep@, i as int),
        decreases fields@.len() - i,
    {
        if i >= keep.len() || keep[i] {
            let ghost before = texts(row@);
            row.push(fields[i].clone());
            assert(texts(row@) =~= before.push(fields@[i as int]@));
            assert(texts(row@) =~= start + kept_fields(texts(fields@), keep@, i + 1));
        }
        i = i + 1;
    }
}

/// The header row of the output: `hex_id`, then `hex_geometry` where
/// outlines are written, then the headers that stay.
pub fn header_row(headers: &Vec<String>, keep: &Vec<bool>, with_geometry: bool) -> (row: Vec<String>)
    ensures
        texts(row@) == row_front(
            "hex_id"@,
            if with_geometry {
                Some("hex_geometry"@)
            } else {
                None
            },
        ) + kept_fields(texts(headers@), keep@, headers@.len() as int),
{
    let mut row: Vec<String> = Vec::new();
    row.push(String::from_str("hex_id"));
    if with_geometry {
        row.push(String::from_str("hex_geometry"));
    }
    assert(texts(row@) =~= row_front(
        "hex_id"@,
        if with_geometry {
            Some("hex_geometry"@)
        } else {
            None
        },
    ));
    push_kept(&mut row, headers, keep);
    row
}

/// A row of the output for one cell: its identifier, then its outline
/// where outlines are written, then the fields of the input row that stay.
pub fn data_row(id: &String, outline: Option<String>, record: &Vec<String>, keep: &Vec<bool>) -> (row:
    Vec<String>)
    ensures
        texts(row@) == row_front(id@, option_text(outline)) + kept_fields(
            texts(record@),
            keep@,
            record@.len() as int,
        ),
{
    let mut row: Vec<String> = Vec::new();
    row.push(id.clone());
    let ghost front = option_text(outline);
    match outline {
        Some(text) => {
            row.push(text);
        },
        None => {},
    }
    assert(texts(row@) =~= row_front(id@, front));
    push_kept(&mut row, record, keep);
    row
}

/// The field of `record` at `idx`, or the error for a row too short to
/// have it. `label` names the column in the error.
pub fn field_at<'a>(record: &'a Vec<String>, idx: usize, label: &str) -> (r: Result<
    &'a String,
    N3gbError,
>)
    ensures
        match r {
            Ok(field) => idx < record@.len() && *field == record@[idx as int],
            Err(e) => idx >= record@.len() && e@ == missing_field_error(label@, idx as nat),
        },
{
    if idx < record.len() {
        Ok(&record[idx])
    } else {
        Err(
            N3gbError::CsvError(
                String::from_str("Missing ").concat(label).concat(" column at index ").concat(
                    decimal_string(idx as u64).as_str(),
                ),
            ),
        )
    }
}

} // verus!
