//! Decisions shared by the layer-shell clients: which globals to bind,
//! how a configure event resizes the surface, when a frame is drawn, and
//! the size of the shared-memory pixel buffer.

use vstd::prelude::*;
use crate::text::{chars_eq, chars_of};

verus! {

/// A compositor global that the clients bind.
#[derive(Clone, Copy, Debug, PartialEq, Eq)]
pub enum Global {
    Compositor,
    Shm,
    LayerShell,
    Seat,
}

/// The global to bind for an advertised interface, with the version to
/// bind: the advertised version capped at what the client speaks
/// (`wl_compositor` 4, `wl_shm` 1, `zwlr_layer_shell_v1` 4, and, for a
/// client that reads the keyboard, `wl_seat` 5). Other interfaces are ignored.
pub open spec fn global_for(interface: Seq<char>, version: u32, with_seat: bool) -> Option<(Global, u32)> {
    let cap = |limit: u32| if version <= limit { version } else { limit };
    if interface == "wl_compositor"@ {
        Some((Global::Compositor, cap(4)))
    } else if interface == "wl_shm"@ {
        Some((Global::Shm, cap(1)))
    } else if interface == "zwlr_layer_shell_v1"@ {
        Some((Global::LayerShell, cap(4)))
    } else if with_seat && interface == "wl_seat"@ {
        Some((Global::Seat, cap(5)))
    } else {
        None
    }
}

/// Decides whether a registry global is bound, and at which version (see `global_for`).
pub fn registry_global(interface: &str, version: u32, with_seat: bool) -> (r: Option<(Global, u32)>)
    ensures
        r == global_for(interface@, version, with_seat),
{
    let name = chars_of(interface);
    if chars_eq(&name, &chars_of("wl_compositor")) {
        Some((Global::Compositor, if version <= 4 { version } else { 4 }))
    } else if chars_eq(&name, &chars_of("wl_shm")) {
        Some((Global::Shm, if version <= 1 { version } else { 1 }))
    } else if chars_eq(&name, &chars_of("zwlr_layer_shell_v1")) {
        Some((Global::LayerShell, if version <= 4 { version } else { 4 }))
    } else if with_seat && chars_eq(&name, &chars_of("wl_seat")) {
        Some((Global::Seat, if version <= 5 { version } else { 5 }))
    } else {
        None
    }
}

/// The surface size after a configure event: a dimension of 0 leaves the
/// current one as it is.
pub open spec fn configured(width: u32, height: u32, new_width: u32, new_height: u32) -> (u32, u32) {
    (if new_width > 0 { new_width } else { width }, if new_height > 0 { new_height } else { height })
}

/// Applies the size of a configure event (see `configured`).
pub fn configured_size(width: u32, height: u32, new_width: u32, new_height: u32) -> (r: (u32, u32))
    ensures
        r == configured(width, height, new_width, new_height),
{
    (if new_width > 0 { new_width } else { width }, if new_height > 0 { new_height } else { height })
}

/// What rendering a frame takes.
#[derive(Clone, Copy, Debug, PartialEq, Eq)]
pub enum FramePlan {
    /// Nothing to draw: the surface has no area yet, or there is no `wl_shm`.
    Skip,
    /// Draw and commit; first make a new renderer and buffer if `reallocate`.
    Draw { reallocate: bool },
}

/// The plan for a frame of a `width` x `height` surface: skip while either
/// side is 0 or no shared-memory global is bound; otherwise draw, with a new
/// buffer when there is none or the one there has another size.
pub open spec fn frame_plan(width: u32, height: u32, has_shm: bool, buffer: Option<(u32, u32)>) -> FramePlan {
    if width == 0 || height == 0 || !has_shm {
        FramePlan::Skip
    } else {
        FramePlan::Draw {
            reallocate: match buffer {
                Some((w, h)) => w != width || h != height,
                None => true,
            },
        }
    }
}

/// Plans the next frame (see `frame_plan`).
pub fn plan_frame(width: u32, height: u32, has_shm: bool, buffer: Option<(u32, u32)>) -> (p: FramePlan)
    ensures
        p == frame_plan(width, height, has_shm, buffer),
{
    if width == 0 || height == 0 || !has_shm {
        FramePlan::Skip
    } else {
        let reallocate = match buffer {
            Some((w, h)) => w != width || h != height,
            None => true,
        };
        FramePlan::Draw { reallocate }
    }
}

/// A global is bound at the advertised version or lower, and at the
/// advertised version when that is 1 or 0; a client that does not read the
/// keyboard never binds `wl_seat`, and otherwise binds the same globals as
/// one that does.
pub proof fn lemma_registry_versions(interface: Seq<char>, version: u32, with_seat: bool)
    ensures
        global_for(interface, version, with_seat) matches Some((g, v)) ==> v <= version && (version <= 1 ==> v
            == version),
        !(global_for(interface, version, false) matches Some((Global::Seat, _))),
        global_for(interface, version, false) is Some ==> global_for(interface, version, true) == global_for(
            interface,
            version,
            false,
        ),
{
}

/// A frame is drawn exactly when both sides are non-zero and `wl_shm` is
/// bound; the buffer of a drawn frame, which has the surface's size, is
/// reused by the next frame at that size.
pub proof fn lemma_frame_plan_reuse(width: u32, height: u32, has_shm: bool, buffer: Option<(u32, u32)>)
    ensures
        frame_plan(width, height, has_shm, buffer) is Draw <==> (width > 0 && height > 0 && has_shm),
        frame_plan(width, height, has_shm, buffer) is Draw ==> frame_plan(width, height, has_shm, Some((width, height)))
            == (FramePlan::Draw { reallocate: false }),
{
}

/// Once a configure event has given both sides and `wl_shm` is bound, a
/// frame is drawn; a buffer of the current size is reused, and one of any
/// other size, or none, is replaced.
pub proof fn lemma_configured_surface_draws(
    width: u32,
    height: u32,
    new_width: u32,
    new_height: u32,
    buffer: Option<(u32, u32)>,
)
    requires
        new_width > 0,
        new_height > 0,
    ensures
        ({
            let (w, h) = configured(width, height, new_width, new_height);
            &&& (w, h) == (new_width, new_height)
            &&& frame_plan(w, h, true, buffer) == (FramePlan::Draw { reallocate: buffer != Some((w, h)) })
        }),
{
}

/// The stride (bytes per row) and total size in bytes of an ARGB8888
/// buffer of `width` x `height` pixels, 4 bytes per pixel.
pub fn shm_layout(width: u32, height: u32) -> (r: (u32, u32))
    requires
        width * 4 <= u32::MAX,
        width * 4 * height <= u32::MAX,
    ensures
        r.0 == width * 4,
        r.1 == width * 4 * height,
{
    let stride = width * 4;
    (stride, stride * height)
}

/// The layer of the shell a surface lives in.
#[derive(Clone, Copy, Debug, PartialEq, Eq)]
pub enum Layer {
    /// Above normal windows, below overlays.
    Top,
    /// Above everything.
    Overlay,
}

/// Whether a layer surface takes keyboard focus.
#[derive(Clone, Copy, Debug, PartialEq, Eq)]
pub enum KeyboardInteractivity {
    Disabled,
    Exclusive,
}

/// The screen edges a layer surface is anchored to; none means centred.
#[derive(Clone, Copy, Debug, PartialEq, Eq)]
pub struct Anchor {
    pub top: bool,
    pub bottom: bool,
    pub left: bool,
    pub right: bool,
}

/// How a client asks for its layer surface: namespace, layer, anchors,
/// requested size (0 = stretch between the anchored edges), the exclusive
/// zone to reserve if any, and keyboard interactivity.
pub struct SurfaceRequest {
    pub namespace: String,
    pub layer: Layer,
    pub anchor: Anchor,
    pub width: u32,
    pub height: u32,
    pub exclusive_zone: Option<i32>,
    pub keyboard: KeyboardInteractivity,
}

/// A bar across one screen edge: anchored to that edge and both sides,
/// full width, `height` pixels high, reserving its height, without focus.
pub fn bar_request(namespace: &str, at_top: bool, height: u32) -> (r: SurfaceRequest)
    ensures
        r.namespace@ == namespace@,
        r.layer == Layer::Top,
        r.anchor == (Anchor { top: at_top, bottom: !at_top, left: true, right: true }),
        r.width == 0,
        r.height == height,
        r.exclusive_zone == Some(height as i32),
        r.keyboard == KeyboardInteractivity::Disabled,
{
    SurfaceRequest {
        namespace: namespace.to_owned(),
        layer: Layer::Top,
        anchor: Anchor { top: at_top, bottom: !at_top, left: true, right: true },
        width: 0,
        height,
        exclusive_zone: Some(height as i32),
        keyboard: KeyboardInteractivity::Disabled,
    }
}

} // verus!
