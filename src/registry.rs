use vstd::prelude::*;
use vstd::string::StringSliceAdditionalSpecFns;

use crate::canvas::{covers, lemma_opaque_fill_reads_back, CanvasContext, GeometryError};
use crate::color::css_color;
use crate::export::{data_url_of, exportable, is_base64_data_url, to_data_url, ExportError};

verus! {

/// Width of every surface that the registry makes.
pub const DEFAULT_WIDTH: u32 = 300;

/// Height of every surface that the registry makes.
pub const DEFAULT_HEIGHT: u32 = 150;

/// Why an operation on the registry failed.
#[derive(Clone, Copy, Debug, PartialEq, Eq, Structural)]
pub enum CanvasError {
    /// No surface has this id.
    NotFound { id: u32 },
    /// A surface of this size cannot be made.
    InvalidGeometry { width: u32, height: u32 },
    /// Every id has been handed out.
    IdsExhausted,
    /// A row of the surface is too long for the PNG encoder.
    TooWideToExport { id: u32, width: u32 },
}

/// The surfaces of a session, each stored under the id that is its index;
/// ids are handed out in order and never reused. Because ids are dense and
/// nothing is ever removed, a `Vec` indexed by id holds exactly what a map
/// keyed by id would, with lookups that need no hashing.
pub struct CanvasManager {
    contexts: Vec<CanvasContext>,
    next_id: u32,
}

impl CanvasManager {
    /// The surfaces, the one of id `i` at index `i`.
    pub closed spec fn surfaces(self) -> Seq<CanvasContext> {
        self.contexts@
    }

    /// The id that the next surface will get.
    pub closed spec fn spec_next_id(self) -> nat {
        self.next_id as nat
    }

    pub open spec fn wf(self) -> bool {
        &&& self.surfaces().len() == self.spec_next_id()
        &&& forall|i: int| 0 <= i < self.surfaces().len() ==> #[trigger] self.surfaces()[i].wf()
    }

    /// Whether `id` names a surface.
    pub open spec fn has(self, id: u32) -> bool {
        id < self.surfaces().len()
    }

    /// `after` is `self` with surface `id` replaced by `c`.
    pub open spec fn replaced(self, after: CanvasManager, id: u32, c: CanvasContext) -> bool {
        &&& after.wf()
        &&& after.spec_next_id() == self.spec_next_id()
        &&& after.surfaces() == self.surfaces().update(id as int, c)
    }

    /// `after` is `self` with surface `id` restyled from the color text `s`.
    pub open spec fn styled(self, after: CanvasManager, id: u32, s: Seq<u8>) -> bool {
        exists|c: CanvasContext|
            self.replaced(after, id, c) && #[trigger] self.surfaces()[id as int].style_result(c, s)
    }

    /// `after` is `self` with the rectangle at `(x, y)` of size `w` x `h`
    /// filled on surface `id`.
    pub open spec fn filled(self, after: CanvasManager, id: u32, x: int, y: int, w: int, h: int) -> bool {
        exists|c: CanvasContext|
            self.replaced(after, id, c) && #[trigger] self.surfaces()[id as int].fill_result(c, x, y, w, h)
    }

    /// The error that exporting surface `id` fails with, where it fails.
    pub open spec fn export_error(self, id: u32) -> CanvasError {
        if self.has(id) {
            CanvasError::TooWideToExport { id, width: self.surfaces()[id as int].spec_width() as u32 }
        } else {
            CanvasError::NotFound { id }
        }
    }

    /// What a successful `op_canvas_create` leaves: `after` is `self` with
    /// a fresh default-sized surface under `id`, the lowest id not yet used.
    pub open spec fn created(self, id: u32, after: CanvasManager) -> bool {
        &&& after.wf()
        &&& id == self.spec_next_id()
        &&& after.spec_next_id() == self.spec_next_id() + 1
        &&& after.surfaces().len() == self.surfaces().len() + 1
        &&& after.surfaces().take(self.surfaces().len() as int) == self.surfaces()
        &&& after.surfaces()[id as int].is_fresh(DEFAULT_WIDTH as int, DEFAULT_HEIGHT as int)
    }

    /// A registry with no surfaces, whose first id is 0.
    pub fn new() -> (r: CanvasManager)
        ensures
            r.wf(),
            r.surfaces().len() == 0,
            r.spec_next_id() == 0,
    {
        CanvasManager { contexts: Vec::new(), next_id: 0 }
    }

    pub fn next_id(&self) -> (r: u32)
        ensures
            r == self.spec_next_id(),
    {
        self.next_id
    }

    /// The surface of id `id`, if there is one.
    pub fn get(&self, id: u32) -> (r: Option<&CanvasContext>)
        requires
            self.wf(),
        ensures
            r is Some <==> self.has(id),
            r matches Some(c) ==> *c == self.surfaces()[id as int] && c.wf(),
    {
        if (id as usize) < self.contexts.len() {
            Some(&self.contexts[id as usize])
        } else {
            None
        }
    }
}

/// Makes a fresh 300 x 150 surface and returns its id, which is the registry's
/// next id; fails with `IdsExhausted`, changing nothing, once the last id has
/// been handed out.
pub fn op_canvas_create(manager: &mut CanvasManager) -> (r: Result<u32, CanvasError>)
    requires
        old(manager).wf(),
    ensures
        match r {
            Ok(id) => old(manager).created(id, *final(manager)),
            Err(e) => {
                &&& old(manager).spec_next_id() == u32::MAX
                &&& e == CanvasError::IdsExhausted
                &&& *final(manager) == *old(manager)
            },
        },
{
    let id = manager.next_id;
    if id == u32::MAX {
        return Err(CanvasError::IdsExhausted);
    }
    match CanvasContext::new(DEFAULT_WIDTH, DEFAULT_HEIGHT) {
        Err(GeometryError::InvalidGeometry { width, height }) => {
            Err(CanvasError::InvalidGeometry { width, height })
        },
        Ok(ctx) => {
            let ghost before = manager.contexts@;
            manager.contexts.push(ctx);
            manager.next_id = id + 1;
            assert(manager.contexts@.take(before.len() as int) =~= before);
            assert forall|i: int| 0 <= i < manager.surfaces().len() implies #[trigger] manager.surfaces()[i].wf() by {
                if i < before.len() {
                    assert(manager.surfaces()[i] == before[i]);
                }
            }
            Ok(id)
        },
    }
}

/// Sets the fill style of surface `id` from a CSS color text; `NotFound`
/// where there is no such surface.
pub fn op_canvas_set_fill_style(manager: &mut CanvasManager, id: u32, color_str: &str) -> (r: Result<(), CanvasError>)
    requires
        old(manager).wf(),
    ensures
        r is Ok <==> old(manager).has(id),
        r matches Err(e) ==> e == (CanvasError::NotFound { id }) && *final(manager) == *old(manager),
        r is Ok ==> old(manager).styled(*final(manager), id, color_str.spec_bytes()),
{
    if (id as usize) >= manager.contexts.len() {
        return Err(CanvasError::NotFound { id });
    }
    let ghost before = manager.contexts@;
    assert(before[id as int].wf());
    manager.contexts[id as usize].set_fill_style(color_str);
    proof {
        let c = manager.contexts@[id as int];
        assert(manager.contexts@ =~= before.update(id as int, c));
        assert forall|i: int| 0 <= i < manager.surfaces().len() implies #[trigger] manager.surfaces()[i].wf() by {
            if i != id {
                assert(manager.surfaces()[i] == before[i]);
            }
        }
        assert(old(manager).replaced(*manager, id, c));
    }
    Ok(())
}

/// Fills the rectangle at `(x, y)` of size `w` x `h` on surface `id` with its
/// paint; `NotFound` where there is no such surface.
pub fn op_canvas_fill_rect(manager: &mut CanvasManager, id: u32, x: i64, y: i64, w: i64, h: i64) -> (r: Result<(), CanvasError>)
    requires
        old(manager).wf(),
    ensures
        r is Ok <==> old(manager).has(id),
        r matches Err(e) ==> e == (CanvasError::NotFound { id }) && *final(manager) == *old(manager),
        r is Ok ==> old(manager).filled(*final(manager), id, x as int, y as int, w as int, h as int),
{
    if (id as usize) >= manager.contexts.len() {
        return Err(CanvasError::NotFound { id });
    }
    let ghost before = manager.contexts@;
    assert(before[id as int].wf());
    manager.contexts[id as usize].fill_rect(x, y, w, h);
    proof {
        let c = manager.contexts@[id as int];
        assert(manager.contexts@ =~= before.update(id as int, c));
        assert forall|i: int| 0 <= i < manager.surfaces().len() implies #[trigger] manager.surfaces()[i].wf() by {
            if i != id {
                assert(manager.surfaces()[i] == before[i]);
            }
        }
        assert(old(manager).replaced(*manager, id, c));
    }
    Ok(())
}

/// The `w` x `h` pixels at `(x, y)` of surface `id`, in straight alpha, as
/// `get_unpremultiplied_rect` reads them; `NotFound` where there is no such
/// surface.
pub fn op_canvas_get_image_data(manager: &CanvasManager, id: u32, x: i32, y: i32, w: i32, h: i32) -> (r: Result<Vec<u8>, CanvasError>)
    requires
        manager.wf(),
    ensures
        r is Ok <==> manager.has(id),
        r matches Err(e) ==> e == (CanvasError::NotFound { id }),
        r matches Ok(v) ==> manager.surfaces()[id as int].is_region(v@, x as int, y as int, w as int, h as int),
{
    match manager.get(id) {
        None => Err(CanvasError::NotFound { id }),
        Some(c) => Ok(c.get_unpremultiplied_rect(x, y, w, h)),
    }
}

/// Surface `id` as a `data:image/png;base64,` URL; `NotFound` where there is
/// no such surface, `TooWideToExport` where its rows are too long for the
/// PNG encoder.
pub fn op_canvas_to_data_url(manager: &CanvasManager, id: u32) -> (r: Result<String, CanvasError>)
    requires
        manager.wf(),
    ensures
        r is Ok <==> manager.has(id) && exportable(manager.surfaces()[id as int].spec_width()),
        r matches Err(e) ==> e == manager.export_error(id),
        r matches Ok(s) ==> s@ == data_url_of(manager.surfaces()[id as int]) && is_base64_data_url(s@),
{
    match manager.get(id) {
        None => Err(CanvasError::NotFound { id }),
        Some(c) => match to_data_url(c) {
            Ok(s) => Ok(s),
            Err(ExportError::TooWide { width }) => Err(CanvasError::TooWideToExport { id, width }),
        },
    }
}

proof fn lemma_created_ids(ms: Seq<CanvasManager>, ids: Seq<u32>, j: int)
    requires
        ms.len() == ids.len() + 1,
        forall|i: int| 0 <= i < ids.len() ==> #[trigger] ms[i].created(ids[i], ms[i + 1]),
        0 <= j < ids.len(),
    ensures
        ids[j] == ms[0].spec_next_id() + j,
    decreases j,
{
    assert(ms[j].created(ids[j], ms[j + 1]));
    if j > 0 {
        lemma_created_ids(ms, ids, j - 1);
        let k = j - 1;
        assert(ms[k].created(ids[k], ms[k + 1]));
    }
}

/// A run of successful `op_canvas_create` calls, each on the registry that
/// the one before left, returns strictly increasing, hence distinct, ids:
/// the first registry's next id, counting up by one, each of them a surface
/// of the last registry.
pub proof fn lemma_ids_strictly_increase(ms: Seq<CanvasManager>, ids: Seq<u32>)
    requires
        ms.len() == ids.len() + 1,
        forall|i: int| 0 <= i < ids.len() ==> #[trigger] ms[i].created(ids[i], ms[i + 1]),
    ensures
        forall|i: int, j: int| 0 <= i < j < ids.len() ==> ids[i] < ids[j],
        forall|i: int| 0 <= i < ids.len() ==> ids[i] == ms[0].spec_next_id() + i,
        forall|i: int| 0 <= i < ids.len() ==> ms.last().has(#[trigger] ids[i]),
{
    assert forall|i: int, j: int| 0 <= i < j < ids.len() implies ids[i] < ids[j] by {
        lemma_created_ids(ms, ids, i);
        lemma_created_ids(ms, ids, j);
    }
    assert forall|i: int| 0 <= i < ids.len() implies ids[i] == ms[0].spec_next_id() + i by {
        lemma_created_ids(ms, ids, i);
    }
    if ids.len() > 0 {
        let n = ids.len() - 1;
        lemma_created_ids(ms, ids, n);
        assert(ms[n].created(ids[n], ms[n + 1]));
        assert forall|i: int| 0 <= i < ids.len() implies ms.last().has(#[trigger] ids[i]) by {
            lemma_created_ids(ms, ids, i);
        }
    }
}

/// Setting an opaque fill style from a color text, filling a rectangle and
/// reading back a covered pixel of the surface gives that color's own
/// channels exactly, with alpha 255.
pub proof fn lemma_opaque_style_fill_reads_back(
    m0: CanvasManager,
    m1: CanvasManager,
    m2: CanvasManager,
    id: u32,
    text: Seq<u8>,
    x: int,
    y: int,
    w: int,
    h: int,
    px: int,
    py: int,
    k: int,
)
    requires
        m0.wf(),
        m0.has(id),
        m0.styled(m1, id, text),
        m1.filled(m2, id, x, y, w, h),
        css_color(text).a == 255,
        m0.surfaces()[id as int].in_bounds(px, py),
        covers(x, y, w, h, px, py),
        0 <= k < 4,
    ensures
        m2.surfaces()[id as int].read_byte(px, py, k) == css_color(text).channel(k),
{
    let c1 = choose|c: CanvasContext|
        m0.replaced(m1, id, c) && #[trigger] m0.surfaces()[id as int].style_result(c, text);
    assert(m1.surfaces()[id as int] == c1);
    let c2 = choose|c: CanvasContext|
        m1.replaced(m2, id, c) && #[trigger] m1.surfaces()[id as int].fill_result(c, x, y, w, h);
    assert(m2.surfaces()[id as int] == c2);
    lemma_opaque_fill_reads_back(c1, c2, x, y, w, h, px, py, k);
}

} // verus!

