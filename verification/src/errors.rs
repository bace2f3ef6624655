use vstd::prelude::*;

verus! {

/// The terminal failures of the encoding pipeline. Every failure aborts the
/// whole encode; no partial output is ever returned beside one of these.
#[derive(Clone, Copy, Debug, PartialEq, Eq, Structural)]
pub enum EncodeError {
    /// The schema is empty, repeats a column name, gives an `Int` column a
    /// `int_max` beyond its bit capacity, or gives an `Enum` column too few
    /// bits for its values.
    SchemaError,
    /// The table input cannot be encoded: the table is empty, a required
    /// column is missing, a row is too short, or a cell does not parse.
    InputError,
    /// The palette description cannot be read, or holds fewer than two
    /// colors.
    PaletteError,
    /// The alignment markers and padding do not fit the requested image
    /// dimensions.
    LayoutError,
    /// No image size up to the search bound can hold the payload plus the
    /// calibration pixels.
    CapacityError,
    /// An alignment-marker bitmap is unusable.
    AssetError,
}

} // verus!
