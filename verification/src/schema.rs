use vstd::prelude::*;
use vstd::arithmetic::power2::pow2;
use crate::errors::EncodeError;

verus! {

/// The two shapes a column can take.
#[derive(Clone, Copy, Debug, PartialEq, Eq, Structural)]
pub enum ColumnKind {
    Int,
    Enum,
}

/// One typed column of the table: an unsigned integer with a declared
/// range, or an enumeration over a fixed list of strings. A `bits` of 0
/// marks a column that carries no information: it is neither read nor
/// validated.
#[derive(Clone, Debug)]
pub enum ColumnSchema {
    Int { name: String, bits: u32, int_max: u64 },
    Enum { name: String, bits: u32, values: Vec<String> },
}

/// The mathematical content of a column: its kind, name, bit width, and
/// whichever of range and value list applies.
pub ghost struct ColModel {
    pub kind: ColumnKind,
    pub name: Seq<char>,
    pub bits: u32,
    pub int_max: u64,
    pub values: Seq<Seq<char>>,
}

/// An integer column's model; it has no value list.
pub open spec fn int_model(name: Seq<char>, bits: u32, int_max: u64) -> ColModel {
    ColModel { kind: ColumnKind::Int, name, bits, int_max, values: Seq::empty() }
}

/// An enumeration column's model; its range field is unused and zero.
pub open spec fn enum_model(name: Seq<char>, bits: u32, values: Seq<Seq<char>>) -> ColModel {
    ColModel { kind: ColumnKind::Enum, name, bits, int_max: 0, values }
}

impl View for ColumnSchema {
    type V = ColModel;

    open spec fn view(&self) -> ColModel {
        match self {
            ColumnSchema::Int { name, bits, int_max } => int_model(name@, *bits, *int_max),
            ColumnSchema::Enum { name, bits, values } => enum_model(
                name@,
                *bits,
                values.deep_view(),
            ),
        }
    }
}

impl ColumnSchema {
    /// The column's name.
    pub fn name(&self) -> (r: &str)
        ensures
            r@ == self@.name,
    {
        match self {
            ColumnSchema::Int { name, .. } => name.as_str(),
            ColumnSchema::Enum { name, .. } => name.as_str(),
        }
    }

    /// The column's kind.
    pub fn kind(&self) -> (r: ColumnKind)
        ensures
            r == self@.kind,
    {
        match self {
            ColumnSchema::Int { .. } => ColumnKind::Int,
            ColumnSchema::Enum { .. } => ColumnKind::Enum,
        }
    }

    /// The column's bit width.
    pub fn bits(&self) -> (r: u32)
        ensures
            r == self@.bits,
    {
        match self {
            ColumnSchema::Int { bits, .. } => *bits,
            ColumnSchema::Enum { bits, .. } => *bits,
        }
    }

    /// The largest value an integer column admits; nothing for an
    /// enumeration column.
    pub fn int_max(&self) -> (r: Option<u64>)
        ensures
            r == if self@.kind == ColumnKind::Int {
                Some(self@.int_max)
            } else {
                None::<u64>
            },
    {
        match self {
            ColumnSchema::Int { int_max, .. } => Some(*int_max),
            ColumnSchema::Enum { .. } => None,
        }
    }

    /// The value list of an enumeration column; nothing for an integer
    /// column.
    pub fn values(&self) -> (r: Option<&Vec<String>>)
        ensures
            r is Some <==> self@.kind == ColumnKind::Enum,
            r matches Some(v) ==> v.deep_view() == self@.values,
    {
        match self {
            ColumnSchema::Int { .. } => None,
            ColumnSchema::Enum { values, .. } => Some(values),
        }
    }
}

/// One column passes on its own: an integer column's range must fit its
/// bit width (checked only when the width is positive), and an
/// enumeration column's bit width must cover its value count (checked
/// only when there is more than one value).
pub open spec fn col_valid(c: ColModel) -> bool {
    match c.kind {
        ColumnKind::Int => c.bits > 0 ==> (c.int_max as nat) < pow2(c.bits as nat),
        ColumnKind::Enum => c.values.len() > 1 ==> c.values.len() <= pow2(c.bits as nat),
    }
}

/// No two columns share a name.
pub open spec fn names_unique(s: Seq<ColModel>) -> bool {
    forall|i: int, j: int| 0 <= i < j < s.len() ==> s[i].name != s[j].name
}

/// A whole schema passes: it is non-empty, names are unique, and every
/// column passes on its own.
pub open spec fn schema_valid(s: Seq<ColModel>) -> bool {
    &&& s.len() > 0
    &&& names_unique(s)
    &&& forall|i: int| 0 <= i < s.len() ==> col_valid(#[trigger] s[i])
}

/// The models of a list of columns.
pub open spec fn schema_models(s: Seq<ColumnSchema>) -> Seq<ColModel> {
    s.map_values(|c: ColumnSchema| c@)
}

/// The column's name as a `String` reference, for comparisons.
fn col_name(c: &ColumnSchema) -> (r: &String)
    ensures
        r@ == c@.name,
{
    match c {
        ColumnSchema::Int { name, .. } => name,
        ColumnSchema::Enum { name, .. } => name,
    }
}

/// The built-in schema, as a sequence of column models: who scouted,
/// which match and team, and the scored-game counters, several of which
/// are switched off with a zero bit width.
#[verifier::opaque]
pub open spec fn default_schema_model() -> Seq<ColModel> {
    seq![
        enum_model("ScoutName"@, 2, seq!["Jude"@, "Dillon"@, ""@, ""@]),
        int_model("MatchNumber"@, 8, 200),
        int_model("TeamNumber"@, 14, 16383),
        int_model("Mobility"@, 1, 1),
        int_model("AutonL1Attempted"@, 4, 12),
        int_model("AutonL1Scored"@, 4, 12),
        int_model("AutonL2Attempted"@, 4, 12),
        int_model("AutonL2Scored"@, 4, 12),
        int_model("AutonL3Attempted"@, 4, 12),
        int_model("AutonL3Scored"@, 4, 12),
        int_model("AutonL4Attempted"@, 4, 12),
        int_model("AutonL4Scored"@, 4, 12),
        int_model("AutonBargeAttempted"@, 0, 0),
        int_model("AutonBargeScored"@, 0, 0),
        int_model("AutonProcessorAttempted"@, 0, 0),
        int_model("AutonProcessorScored"@, 0, 0),
        int_model("AutonAlgaeRemoved"@, 0, 0),
        int_model("TeleopL1Attempted"@, 4, 12),
        int_model("TeleopL1Scored"@, 4, 12),
        int_model("TeleopL2Attempted"@, 4, 12),
        int_model("TeleopL2Scored"@, 4, 12),
        int_model("TeleopL3Attempted"@, 4, 12),
        int_model("TeleopL3Scored"@, 4, 12),
        int_model("TeleopL4Attempted"@, 4, 12),
        int_model("TeleopL4Scored"@, 4, 12),
        int_model("TeleopBargeAttempted"@, 3, 7),
        int_model("TeleopBargeScored"@, 3, 7),
        int_model("TeleopProcessorAttempted"@, 3, 7),
        int_model("TeleopProcessorScored"@, 3, 7),
        int_model("TeleopAlgaeRemoved"@, 3, 7),
        int_model("ClimbSuccessful"@, 1, 1),
        enum_model("Climb"@, 2, seq!["None"@, "Shallow"@, "Deep"@, "Park"@]),
        enum_model("Breakdown"@, 1, seq!["False"@, "True"@]),
        enum_model("DefenseDescription"@, 0, seq![""@]),
        enum_model("Notes"@, 1, seq![""@, "Some note"@]),
    ]
}

/// Every column of the built-in schema fits its values in at most 64
/// bits, the widest carrier a packed value uses.
pub proof fn lemma_default_schema_bits()
    ensures
        forall|c: int|
            0 <= c < default_schema_model().len() ==> (#[trigger] default_schema_model()[c]).bits
                <= 64,
{
    reveal(default_schema_model);
    assert forall|c: int|
        0 <= c < default_schema_model().len() implies (#[trigger] default_schema_model()[c]).bits
        <= 64 by {
        let m = default_schema_model();
        assert(m[c].bits <= 64);
    }
}

/// An integer column built from literals.
fn int_col(name: &str, bits: u32, int_max: u64) -> (c: ColumnSchema)
    ensures
        c@ == int_model(name@, bits, int_max),
{
    ColumnSchema::Int { name: name.to_owned(), bits, int_max }
}

/// An enumeration column with one value.
fn enum_col1(name: &str, bits: u32, v0: &str) -> (c: ColumnSchema)
    ensures
        c@ == enum_model(name@, bits, seq![v0@]),
{
    let mut values: Vec<String> = Vec::new();
    values.push(v0.to_owned());
    proof {
        assert(values.deep_view() =~= seq![v0@]);
    }
    ColumnSchema::Enum { name: name.to_owned(), bits, values }
}

/// An enumeration column with two values.
fn enum_col2(name: &str, bits: u32, v0: &str, v1: &str) -> (c: ColumnSchema)
    ensures
        c@ == enum_model(name@, bits, seq![v0@, v1@]),
{
    let mut values: Vec<String> = Vec::new();
    values.push(v0.to_owned());
    values.push(v1.to_owned());
    proof {
        assert(values.deep_view() =~= seq![v0@, v1@]);
    }
    ColumnSchema::Enum { name: name.to_owned(), bits, values }
}

/// An enumeration column with four values.
fn enum_col4(name: &str, bits: u32, v0: &str, v1: &str, v2: &str, v3: &str) -> (c: ColumnSchema)
    ensures
        c@ == enum_model(name@, bits, seq![v0@, v1@, v2@, v3@]),
{
    let mut values: Vec<String> = Vec::new();
    values.push(v0.to_owned());
    values.push(v1.to_owned());
    values.push(v2.to_owned());
    values.push(v3.to_owned());
    proof {
        assert(values.deep_view() =~= seq![v0@, v1@, v2@, v3@]);
    }
    ColumnSchema::Enum { name: name.to_owned(), bits, values }
}

/// The built-in schema used when the caller supplies none.
#[verifier::rlimit(60)]
pub fn get_default_schema() -> (r: Vec<ColumnSchema>)
    ensures
        schema_models(r@) == default_schema_model(),
{
    let mut v: Vec<ColumnSchema> = Vec::new();
    v.push(enum_col4("ScoutName", 2, "Jude", "Dillon", "", ""));
    v.push(int_col("MatchNumber", 8, 200));
    v.push(int_col("TeamNumber", 14, 16383));
    v.push(int_col("Mobility", 1, 1));
    v.push(int_col("AutonL1Attempted", 4, 12));
    v.push(int_col("AutonL1Scored", 4, 12));
    v.push(int_col("AutonL2Attempted", 4, 12));
    v.push(int_col("AutonL2Scored", 4, 12));
    v.push(int_col("AutonL3Attempted", 4, 12));
    v.push(int_col("AutonL3Scored", 4, 12));
    v.push(int_col("AutonL4Attempted", 4, 12));
    v.push(int_col("AutonL4Scored", 4, 12));
    v.push(int_col("AutonBargeAttempted", 0, 0));
    v.push(int_col("AutonBargeScored", 0, 0));
    v.push(int_col("AutonProcessorAttempted", 0, 0));
    v.push(int_col("AutonProcessorScored", 0, 0));
    v.push(int_col("AutonAlgaeRemoved", 0, 0));
    v.push(int_col("TeleopL1Attempted", 4, 12));
    v.push(int_col("TeleopL1Scored", 4, 12));
    v.push(int_col("TeleopL2Attempted", 4, 12));
    v.push(int_col("TeleopL2Scored", 4, 12));
    v.push(int_col("TeleopL3Attempted", 4, 12));
    v.push(int_col("TeleopL3Scored", 4, 12));
    v.push(int_col("TeleopL4Attempted", 4, 12));
    v.push(int_col("TeleopL4Scored", 4, 12));
    v.push(int_col("TeleopBargeAttempted", 3, 7));
    v.push(int_col("TeleopBargeScored", 3, 7));
    v.push(int_col("TeleopProcessorAttempted", 3, 7));
    v.push(int_col("TeleopProcessorScored", 3, 7));
    v.push(int_col("TeleopAlgaeRemoved", 3, 7));
    v.push(int_col("ClimbSuccessful", 1, 1));
    v.push(enum_col4("Climb", 2, "None", "Shallow", "Deep", "Park"));
    v.push(enum_col2("Breakdown", 1, "False", "True"));
    v.push(enum_col1("DefenseDescription", 0, ""));
    v.push(enum_col2("Notes", 1, "", "Some note"));
    proof {
        reveal(default_schema_model);
        assert(schema_models(v@) =~= default_schema_model());
    }
    v
}

/// Checks a schema and reports the first violation; a schema that comes
/// back `Ok` satisfies `schema_valid`, and only such a schema does.
pub fn validate_schema(schema: &[ColumnSchema]) -> (r: Result<(), EncodeError>)
    ensures
        r is Ok <==> schema_valid(schema_models(schema@)),
        r is Err ==> r == Err::<(), EncodeError>(EncodeError::SchemaError),
{
    let ghost models = schema_models(schema@);
    if schema.len() == 0 {
        return Err(EncodeError::SchemaError);
    }
    let mut i: usize = 0;
    while i < schema.len()
        invariant
            i <= schema@.len(),
            models == schema_models(schema@),
            models.len() == schema@.len(),
            forall|a: int, b: int| 0 <= a < b < i ==> models[a].name != models[b].name,
            forall|a: int| 0 <= a < i ==> col_valid(#[trigger] models[a]),
        decreases schema@.len() - i,
    {
        let col = &schema[i];
        let mut j: usize = 0;
        while j < i
            invariant
                j <= i,
                i < schema@.len(),
                models == schema_models(schema@),
                models.len() == schema@.len(),
                *col == schema@[i as int],
                forall|a: int| 0 <= a < j ==> models[a].name != models[i as int].name,
            decreases i - j,
        {
            proof {
                assert(models[j as int] == schema@[j as int]@);
                assert(models[i as int] == schema@[i as int]@);
            }
            if String::eq(col_name(&schema[j]), col_name(col)) {
                proof {
                    assert(models[j as int].name == models[i as int].name);
                    assert(!names_unique(models));
                }
                return Err(EncodeError::SchemaError);
            }
            j = j + 1;
        }
        match col {
            ColumnSchema::Int { bits, int_max, .. } => {
                if *bits > 0 && *bits < 64 {
                    proof {
                        vstd::arithmetic::power2::lemma2_to64();
                        vstd::arithmetic::power2::lemma_pow2_pos(*bits as nat);
                        vstd::arithmetic::power2::lemma_pow2_strictly_increases(
                            *bits as nat,
                            64,
                        );
                        vstd::bits::lemma_u64_shl_is_mul(1u64, *bits as u64);
                    }
                    let max_representable = (1u64 << (*bits as u64)) - 1;
                    if *int_max > max_representable {
                        return Err(EncodeError::SchemaError);
                    }
                } else if *bits >= 64 {
                    proof {
                        vstd::arithmetic::power2::lemma2_to64();
                        if *bits > 64 {
                            vstd::arithmetic::power2::lemma_pow2_strictly_increases(
                                64,
                                *bits as nat,
                            );
                        }
                    }
                }
            },
            ColumnSchema::Enum { bits, values, .. } => {
                let count = values.len();
                if count > 1 {
                    if *bits >= 64 {
                        proof {
                            vstd::arithmetic::power2::lemma2_to64();
                            if *bits > 64 {
                                vstd::arithmetic::power2::lemma_pow2_strictly_increases(
                                    64,
                                    *bits as nat,
                                );
                            }
                            assert((count as nat) <= pow2(*bits as nat));
                        }
                    } else {
                        let capacity = 1u64 << (*bits as u64);
                        proof {
                            vstd::arithmetic::power2::lemma2_to64();
                            vstd::arithmetic::power2::lemma_pow2_strictly_increases(
                                *bits as nat,
                                64,
                            );
                            vstd::bits::lemma_u64_shl_is_mul(1u64, *bits as u64);
                        }
                        if count as u64 > capacity {
                            return Err(EncodeError::SchemaError);
                        }
                    }
                }
                proof {
                    assert(models[i as int].values.len() == values.deep_view().len());
                    assert(values.deep_view().len() == values@.len());
                }
            },
        }
        i = i + 1;
    }
    Ok(())
}

} // verus!

