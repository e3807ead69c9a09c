//! The menubar's own state, apart from the Wayland objects it holds.

use vstd::prelude::*;
use crate::menubar::config::Config;
use crate::surface::{
    bar_request, configured, configured_size, frame_plan, plan_frame, Anchor, FramePlan,
    KeyboardInteractivity, Layer, SurfaceRequest,
};

verus! {

/// The menubar's size (the width comes from the compositor), whether it
/// keeps running, and its configuration.
pub struct AppState {
    pub width: u32,
    pub height: u32,
    pub running: bool,
    pub config: Config,
}

impl AppState {
    /// A running menubar of the configured height whose width is not known yet.
    pub fn new(config: Config) -> (s: Self)
        ensures
            s.width == 0,
            s.height == config.menubar.height,
            s.running,
            s.config == config,
    {
        let height = config.menubar.height;
        AppState { width: 0, height, running: true, config }
    }

    /// The layer surface to ask for: `pepos-menubar` in the top layer,
    /// anchored to the top edge and both sides, full width, the configured
    /// height, that height reserved as exclusive zone, no keyboard focus.
    pub fn surface_request(&self) -> (r: SurfaceRequest)
        ensures
            r.namespace@ == "pepos-menubar"@,
            r.layer == Layer::Top,
            r.anchor == (Anchor { top: true, bottom: false, left: true, right: true }),
            r.width == 0,
            r.height == self.config.menubar.height,
            r.exclusive_zone == Some(self.config.menubar.height as i32),
            r.keyboard == KeyboardInteractivity::Disabled,
    {
        bar_request("pepos-menubar", true, self.config.menubar.height)
    }

    /// Takes the size of a configure event; a dimension of 0 keeps the current one.
    pub fn configure(&mut self, width: u32, height: u32)
        ensures
            (final(self).width, final(self).height) == configured(old(self).width, old(self).height, width, height),
            final(self).running == old(self).running,
            final(self).config == old(self).config,
    {
        let (w, h) = configured_size(self.width, self.height, width, height);
        self.width = w;
        self.height = h;
    }

    /// The compositor closed the surface: stop.
    pub fn close(&mut self)
        ensures
            !final(self).running,
            final(self).width == old(self).width,
            final(self).height == old(self).height,
            final(self).config == old(self).config,
    {
        self.running = false;
    }

    /// How to render the next frame, given whether `wl_shm` is bound and the
    /// size of the current buffer, if any (see `frame_plan`).
    pub fn plan_frame(&self, has_shm: bool, buffer: Option<(u32, u32)>) -> (p: FramePlan)
        ensures
            p == frame_plan(self.width, self.height, has_shm, buffer),
    {
        plan_frame(self.width, self.height, has_shm, buffer)
    }
}

} // verus!
