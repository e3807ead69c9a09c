use pepos::dock::config::Config as DockConfig;
use pepos::dock::render::{icon_initial, pinned_apps};
use pepos::dock::state::AppState as Dock;
use pepos::fonts::{font_candidates, font_directories};
use pepos::menubar::config::Config as MenubarConfig;
use pepos::menubar::state::AppState as Menubar;
use pepos::surface::{
    configured_size, plan_frame, registry_global, shm_layout, FramePlan, Global, KeyboardInteractivity, Layer,
};

#[test]
fn bar_height_of_the_default_dock() {
    assert_eq!(DockConfig::default().bar_height(), 68);
}

#[test]
fn menubar_starts_without_width() {
    let m = Menubar::new(MenubarConfig::default());
    assert_eq!((m.width, m.height, m.running), (0, 28, true));
    let r = m.surface_request();
    assert_eq!(r.namespace, "pepos-menubar");
    assert_eq!(r.layer, Layer::Top);
    assert!(r.anchor.top && !r.anchor.bottom && r.anchor.left && r.anchor.right);
    assert_eq!((r.width, r.height, r.exclusive_zone), (0, 28, Some(28)));
    assert_eq!(r.keyboard, KeyboardInteractivity::Disabled);
}

#[test]
fn dock_sits_at_the_bottom() {
    let d = Dock::new(DockConfig::default());
    assert_eq!((d.width, d.height), (0, 68));
    let r = d.surface_request();
    assert_eq!(r.namespace, "pepos-dock");
    assert!(!r.anchor.top && r.anchor.bottom);
    assert_eq!((r.height, r.exclusive_zone), (68, Some(68)));
}

#[test]
fn configure_keeps_zero_dimensions() {
    let mut m = Menubar::new(MenubarConfig::default());
    m.configure(1920, 0);
    assert_eq!((m.width, m.height), (1920, 28));
    m.configure(0, 30);
    assert_eq!((m.width, m.height), (1920, 30));
    assert_eq!(configured_size(5, 6, 0, 0), (5, 6));
    m.close();
    assert!(!m.running);
}

#[test]
fn frames_are_planned() {
    assert_eq!(plan_frame(0, 28, true, None), FramePlan::Skip);
    assert_eq!(plan_frame(100, 28, false, None), FramePlan::Skip);
    assert_eq!(plan_frame(100, 28, true, None), FramePlan::Draw { reallocate: true });
    assert_eq!(plan_frame(100, 28, true, Some((100, 28))), FramePlan::Draw { reallocate: false });
    assert_eq!(plan_frame(100, 28, true, Some((90, 28))), FramePlan::Draw { reallocate: true });
    let mut d = Dock::new(DockConfig::default());
    assert_eq!(d.plan_frame(true, None), FramePlan::Skip);
    d.configure(800, 0);
    assert_eq!(d.plan_frame(true, Some((800, 68))), FramePlan::Draw { reallocate: false });
}

#[test]
fn globals_are_bound_at_capped_versions() {
    assert_eq!(registry_global("wl_compositor", 6, false), Some((Global::Compositor, 4)));
    assert_eq!(registry_global("wl_compositor", 3, false), Some((Global::Compositor, 3)));
    assert_eq!(registry_global("wl_shm", 2, false), Some((Global::Shm, 1)));
    assert_eq!(registry_global("zwlr_layer_shell_v1", 5, false), Some((Global::LayerShell, 4)));
    assert_eq!(registry_global("wl_seat", 9, false), None);
    assert_eq!(registry_global("wl_seat", 9, true), Some((Global::Seat, 5)));
    assert_eq!(registry_global("wl_output", 4, true), None);
}

#[test]
fn shm_sizes() {
    assert_eq!(shm_layout(1920, 28), (7680, 215040));
    assert_eq!(shm_layout(0, 10), (0, 0));
}

#[test]
fn dock_apps_and_initials() {
    let apps = pinned_apps();
    assert_eq!(apps.len(), 5);
    assert_eq!(apps[1].name, "Browser");
    assert_eq!(apps[1].command, "firefox");
    assert_eq!(apps[4].color, (94, 155, 255));
    let initials: String = apps.iter().map(|a| icon_initial(a.name)).collect();
    assert_eq!(initials, "TBEFL");
    assert_eq!(icon_initial("vim"), 'V');
    assert_eq!(icon_initial(""), '?');
    assert_eq!(icon_initial("1x"), '1');
    assert_eq!(icon_initial("ßeta"), 'S');
}

#[test]
fn font_files_to_try() {
    let v = font_candidates("Inter");
    assert_eq!(v.len(), 12);
    assert_eq!(v[0], "/usr/share/fonts/TTF/Inter-Regular.ttf");
    assert_eq!(v[1], "/usr/share/fonts/TTF/Inter-regular.ttf");
    assert_eq!(v[2], "/usr/share/fonts/TTF/Inter.ttf");
    assert_eq!(v[11], "/usr/local/share/fonts/Inter.ttf");
    assert_eq!(font_directories()[3], "/usr/local/share/fonts");
}

