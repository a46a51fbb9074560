//! What a snapshot's headers say about its tensors.

use vstd::prelude::*;
use crate::text::same;

verus! {

/// How a tensor's elements are stored.
#[derive(Debug, Clone, Copy, PartialEq, Eq, Structural)]
pub enum DType {
    Bool,
    U8,
    I8,
    I16,
    I32,
    I64,
    F8E4M3,
    F8E5M2,
    F16,
    Bf16,
    F32,
    F64,
}

impl DType {
    /// The name of the type in a header.
    pub open spec fn text(self) -> Seq<char> {
        match self {
            DType::Bool => "BOOL"@,
            DType::U8 => "U8"@,
            DType::I8 => "I8"@,
            DType::I16 => "I16"@,
            DType::I32 => "I32"@,
            DType::I64 => "I64"@,
            DType::F8E4M3 => "F8_E4M3"@,
            DType::F8E5M2 => "F8_E5M2"@,
            DType::F16 => "F16"@,
            DType::Bf16 => "BF16"@,
            DType::F32 => "F32"@,
            DType::F64 => "F64"@,
        }
    }

    /// The name of the type in a header.
    pub fn as_str(self) -> (s: &'static str)
        ensures
            s@ == self.text(),
    {
        match self {
            DType::Bool => "BOOL",
            DType::U8 => "U8",
            DType::I8 => "I8",
            DType::I16 => "I16",
            DType::I32 => "I32",
            DType::I64 => "I64",
            DType::F8E4M3 => "F8_E4M3",
            DType::F8E5M2 => "F8_E5M2",
            DType::F16 => "F16",
            DType::Bf16 => "BF16",
            DType::F32 => "F32",
            DType::F64 => "F64",
        }
    }

    /// Whether this is one of the 8-bit floating-point types.
    pub open spec fn is_fp8(self) -> bool {
        self == DType::F8E4M3 || self == DType::F8E5M2
    }
}

/// A tensor of a snapshot.
pub struct SourceTensor {
    pub name: String,
    pub dtype: DType,
    pub shape: Vec<i64>,
    /// Elements.
    pub numel: usize,
    /// Stored bytes.
    pub nbytes: usize,
    /// The shard that holds it.
    pub file_idx: usize,
}

/// Where `name` first stands among `tensors`; their number if it does not.
pub open spec fn first_named(tensors: Seq<SourceTensor>, name: Seq<char>) -> nat
    decreases tensors.len(),
{
    if tensors.len() == 0 || tensors[0].name@ == name {
        0
    } else {
        1 + first_named(tensors.skip(1), name)
    }
}

/// Whether `tensors` holds one of that name.
pub open spec fn has_name(tensors: Seq<SourceTensor>, name: Seq<char>) -> bool {
    first_named(tensors, name) < tensors.len()
}

/// The tensor of that name.
pub open spec fn named(tensors: Seq<SourceTensor>, name: Seq<char>) -> SourceTensor {
    tensors[first_named(tensors, name) as int]
}

/// Looking a name up finds a tensor of that name, the first there is, and fails
/// only where there is none.
pub proof fn lookup_finds_the_name(tensors: Seq<SourceTensor>, name: Seq<char>)
    ensures
        has_name(tensors, name) ==> named(tensors, name).name@ == name,
        forall|i: int|
            0 <= i < tensors.len() && #[trigger] tensors[i].name@ == name ==> first_named(
                tensors,
                name,
            ) <= i,
        first_named(tensors, name) <= tensors.len(),
    decreases tensors.len(),
{
    if tensors.len() > 0 && tensors[0].name@ != name {
        let rest = tensors.skip(1);
        lookup_finds_the_name(rest, name);
        assert forall|i: int|
            0 <= i < tensors.len() && #[trigger] tensors[i].name@ == name implies first_named(
            tensors,
            name,
        ) <= i by {
            assert(rest[i - 1] == tensors[i]);
        }
    }
}

proof fn first_named_is(tensors: Seq<SourceTensor>, name: Seq<char>, i: int)
    requires
        0 <= i <= tensors.len(),
        i < tensors.len() ==> tensors[i].name@ == name,
        forall|j: int| 0 <= j < i ==> (#[trigger] tensors[j]).name@ != name,
    ensures
        first_named(tensors, name) == i,
    decreases i,
{
    lookup_finds_the_name(tensors, name);
    if i > 0 {
        let rest = tensors.skip(1);
        assert(tensors[0].name@ != name);
        assert forall|j: int| 0 <= j < i - 1 implies (#[trigger] rest[j]).name@ != name by {
            assert(rest[j] == tensors[j + 1]);
        }
        first_named_is(rest, name, i - 1);
    }
}

/// The tensor of that name, if there is one.
pub fn find<'a>(tensors: &'a Vec<SourceTensor>, name: &str) -> (r: Option<&'a SourceTensor>)
    ensures
        match r {
            Some(t) => has_name(tensors@, name@) && *t == named(tensors@, name@),
            None => !has_name(tensors@, name@),
        },
{
    for i in 0..tensors.len()
        invariant
            forall|j: int| 0 <= j < i ==> (#[trigger] tensors@[j]).name@ != name@,
    {
        if same(tensors[i].name.as_str(), name) {
            proof {
                first_named_is(tensors@, name@, i as int);
            }
            return Some(&tensors[i]);
        }
    }
    proof {
        first_named_is(tensors@, name@, tensors@.len() as int);
    }
    None
}

/// Whether a snapshot holds a tensor of that name.
pub fn is_listed(tensors: &Vec<SourceTensor>, name: &str) -> (b: bool)
    ensures
        b == has_name(tensors@, name@),
{
    find(tensors, name).is_some()
}

/// Whether every dimension can be worked with: not negative, and twice it still
/// a length.
pub open spec fn shape_fits(shape: Seq<i64>) -> bool {
    forall|j: int|
        0 <= j < shape.len() ==> 0 <= #[trigger] shape[j] && 2 * shape[j] <= usize::MAX
}

/// Whether the tensor of that name, if there is one, has dimensions that can be
/// worked with.
pub open spec fn dims_fit(tensors: Seq<SourceTensor>, name: Seq<char>) -> bool {
    has_name(tensors, name) ==> shape_fits(named(tensors, name).shape@)
}

/// Whether the tensor of that name, if there is one, has dimensions that can be
/// worked with.
pub fn check_dims(tensors: &Vec<SourceTensor>, name: &str) -> (b: bool)
    ensures
        b == dims_fit(tensors@, name@),
{
    let shape: &Vec<i64> = match find(tensors, name) {
        Some(t) => &t.shape,
        None => {
            return true;
        },
    };
    for j in 0..shape.len()
        invariant
            has_name(tensors@, name@),
            *shape == named(tensors@, name@).shape,
            forall|k: int|
                0 <= k < j ==> 0 <= #[trigger] shape@[k] && 2 * shape@[k] <= usize::MAX,
    {
        let d: i64 = shape[j];
        if d < 0 || d as u64 > (usize::MAX / 2) as u64 {
            assert(!(0 <= shape@[j as int] && 2 * shape@[j as int] <= usize::MAX));
            return false;
        }
    }
    true
}

/// Whether a tensor is a matrix. Anything else is kept in f32 where a matrix is
/// encoded.
pub fn is_matrix(shape: &Vec<i64>) -> (b: bool)
    ensures
        b == (shape@.len() == 2),
        b == (matrix_dims(shape@) is Some),
{
    shape.len() == 2
}

/// The two dimensions of a matrix; anything else is no matrix.
pub open spec fn matrix_dims(shape: Seq<i64>) -> Option<(usize, usize)> {
    if shape.len() == 2 {
        Some((shape[0] as usize, shape[1] as usize))
    } else {
        None
    }
}

/// The tensor `name` is not a matrix.
#[derive(Debug, PartialEq, Eq)]
pub struct NotAMatrix {
    pub name: String,
}

/// The two dimensions of a matrix.
pub fn two_dims(shape: &Vec<i64>, name: &str) -> (r: Result<(usize, usize), NotAMatrix>)
    ensures
        match r {
            Ok(d) => matrix_dims(shape@) == Some(d),
            Err(e) => matrix_dims(shape@) is None && e.name@ == name@,
        },
{
    if shape.len() != 2 {
        return Err(NotAMatrix { name: name.to_owned() });
    }
    Ok((shape[0] as usize, shape[1] as usize))
}

/// A matrix is what has two dimensions, and its rows are the first of them.
pub proof fn a_matrix_has_rows_and_columns(shape: Seq<i64>)
    requires
        shape_fits(shape),
    ensures
        matrix_dims(shape) is Some <==> shape.len() == 2,
        matrix_dims(shape) matches Some((o, i)) ==> o == shape[0] && i == shape[1],
{
}

proof fn a_type_shows_in_its_name(d: DType)
    ensures
        (d.text().len(), d.text().first(), d.text().last()) == match d {
            DType::Bool => (4nat, 'B', 'L'),
            DType::U8 => (2nat, 'U', '8'),
            DType::I8 => (2nat, 'I', '8'),
            DType::I16 => (3nat, 'I', '6'),
            DType::I32 => (3nat, 'I', '2'),
            DType::I64 => (3nat, 'I', '4'),
            DType::F8E4M3 => (7nat, 'F', '3'),
            DType::F8E5M2 => (7nat, 'F', '2'),
            DType::F16 => (3nat, 'F', '6'),
            DType::Bf16 => (4nat, 'B', '6'),
            DType::F32 => (3nat, 'F', '2'),
            DType::F64 => (3nat, 'F', '4'),
        },
{
    reveal_strlit("BOOL");
    reveal_strlit("U8");
    reveal_strlit("I8");
    reveal_strlit("I16");
    reveal_strlit("I32");
    reveal_strlit("I64");
    reveal_strlit("F8_E4M3");
    reveal_strlit("F8_E5M2");
    reveal_strlit("F16");
    reveal_strlit("BF16");
    reveal_strlit("F32");
    reveal_strlit("F64");
}

/// No two types have the same name.
pub proof fn types_have_names_of_their_own(
    a: DType,
    b: DType,
    s: &'static str,
    t: &'static str,
)
    requires
        call_ensures(DType::as_str, (a,), s),
        call_ensures(DType::as_str, (b,), t),
    ensures
        s@ == t@ <==> a == b,
        s@.first() == 'U' <==> a == DType::U8,
        s@.first() == 'I' <==> a == DType::I8 || a == DType::I16 || a == DType::I32 || a
            == DType::I64,
        s@.last() == '6' <==> a == DType::I16 || a == DType::F16 || a == DType::Bf16,
        s@.last() == '8' <==> a == DType::U8 || a == DType::I8,
{
    a_type_shows_in_its_name(a);
    a_type_shows_in_its_name(b);
}

} // verus!
