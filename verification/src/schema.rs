//! Record schemas: the unit the layout compiler consumes.
//!
//! A record schema couples an ordered field list with a position-resolution
//! mode and a container kind — byte-addressed with the byte orders to
//! generate, or bit-addressed. Compiling it validates the layout once; the
//! result carries the validated layout and the container kind through to
//! the accessor side, along with the record's final extent.

use vstd::prelude::*;

use crate::layout::FieldDecl;
use crate::layout::Layout;
use crate::layout::LayoutError;
use crate::layout::LayoutMode;
use crate::layout::all_resolve;
use crate::layout::compile_layout;
use crate::layout::has_collision;
use crate::layout::is_resolution_of;
use crate::layout::layout_error_explains;

verus! {

/// Which byte orders a byte-addressed record must support.
#[derive(Clone, Copy, Debug, PartialEq, Eq, Structural)]
pub enum ByteOrders {
    LittleEndian,
    BigEndian,
    Both,
}

/// How the record addresses its container.
#[derive(Clone, Copy, Debug, PartialEq, Eq, Structural)]
pub enum ContainerKind {
    /// Positions are byte indices; decode/encode pairs exist per byte order.
    ByteAddressed(ByteOrders),
    /// Positions are bit indices of a scalar container.
    BitAddressed,
}

/// A record schema as the front end hands it over: fields in declaration
/// order, the position-resolution mode, and the container kind.
pub struct RecordSchema {
    pub fields: Vec<FieldDecl>,
    pub mode: LayoutMode,
    pub container: ContainerKind,
}

/// A compiled record: the validated, position-ordered layout and the
/// container kind the accessors must address. The layout's `max_end` is the
/// record's final byte or bit extent.
#[derive(Debug)]
pub struct CompiledRecord {
    pub layout: Layout,
    pub container: ContainerKind,
}

/// Validates a record schema's layout. Succeeds exactly when every field
/// resolves and no two resolved ranges collide; the compiled record then
/// holds the sorted, collision-free layout. Any failure yields no compiled
/// record at all — there is no partial output.
pub fn compile_record(schema: &RecordSchema) -> (r: Result<CompiledRecord, LayoutError>)
    ensures
        r is Ok <==> (all_resolve(schema.fields@, schema.mode) && !has_collision(
            schema.fields@,
            schema.mode,
        )),
        r matches Ok(c) ==> c.layout.wf() && is_resolution_of(
            c.layout.fields@,
            schema.fields@,
            schema.mode,
        ) && c.container == schema.container,
        r matches Err(e) ==> layout_error_explains(schema.fields@, schema.mode, e),
{
    match compile_layout(&schema.fields, schema.mode) {
        Ok(layout) => Ok(CompiledRecord { layout, container: schema.container }),
        Err(e) => Err(e),
    }
}

} // verus!

