//! The dock's own state, apart from the Wayland objects it holds.

use vstd::prelude::*;
use crate::dock::config::Config;
use crate::surface::{
    bar_request, configured, configured_size, frame_plan, plan_frame, Anchor, FramePlan,
    KeyboardInteractivity, Layer, SurfaceRequest,
};

verus! {

/// The dock's size (the width comes from the compositor), whether it keeps
/// running, and its configuration.
pub struct AppState {
    pub width: u32,
    pub height: u32,
    pub running: bool,
    pub config: Config,
}

impl AppState {
    /// A running dock as high as its bar (see `Config::bar_height`) whose
    /// width is not known yet.
    pub fn new(config: Config) -> (s: Self)
        requires
            config.bar_height_fits(),
        ensures
            s.width == 0,
            s.height == config.dock.padding * 2 + config.dock.icon_size,
            s.running,
            s.config == config,
    {
        let height = config.bar_height();
        AppState { width: 0, height, running: true, config }
    }

    /// The layer surface to ask for: `pepos-dock` in the top layer,
    /// anchored to the bottom edge and both sides, full width, the bar
    /// height, that height reserved as exclusive zone, no keyboard focus.
    pub fn surface_request(&self) -> (r: SurfaceRequest)
        requires
            self.config.bar_height_fits(),
        ensures
            r.namespace@ == "pepos-dock"@,
            r.layer == Layer::Top,
            r.anchor == (Anchor { top: false, bottom: true, left: true, right: true }),
            r.width == 0,
            r.height == self.config.dock.padding * 2 + self.config.dock.icon_size,
            r.exclusive_zone == Some(r.height as i32),
            r.keyboard == KeyboardInteractivity::Disabled,
    {
        bar_request("pepos-dock", false, self.config.bar_height())
    }

    /// Takes the size of a configure event; a dimension of 0 keeps the current one.
    pub fn configure(&mut self, width: u32, height: u32)
        ensures
            (final(self).width, final(self).height) == configured(old(self).width, old(self).height, width, height),
            final(self).running == old(self).running,
            final(self).config == old(self).config,
    {
        let (w, h) = configured_size(self.width, self.height, width, height);
        self.width = w;
        self.height = h;
    }

    /// The compositor closed the surface: stop.
    pub fn close(&mut self)
        ensures
            !final(self).running,
            final(self).width == old(self).width,
            final(self).height == old(self).height,
            final(self).config == old(self).config,
    {
        self.running = false;
    }

    /// How to render the next frame, given whether `wl_shm` is bound and the
    /// size of the current buffer, if any (see `frame_plan`).
    pub fn plan_frame(&self, has_shm: bool, buffer: Option<(u32, u32)>) -> (p: FramePlan)
        ensures
            p == frame_plan(self.width, self.height, has_shm, buffer),
    {
        plan_frame(self.width, self.height, has_shm, buffer)
    }
}

} // verus!
