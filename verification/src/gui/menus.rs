//! The entries of the viewer's menus.
//!
//! The callback type `C` is left to the caller; the viewer uses boxed
//! closures that can be shared between threads.

use vstd::prelude::*;

verus! {

/// The actions behind the menu buttons.
pub struct MenuCallbacks<C> {
    pub rebuild: C,
    pub export: C,
    pub capture: C,
    pub set_in_point: C,
    pub set_out_point: C,
    pub reset_in_out_point: C,
    pub clear_font_cache: C,
    pub subitem_selector: C,
    pub profiler_first: C,
    pub profiler_second: C,
    pub rich_text_editor: C,
    pub font_list: C,
    pub color: C,
    pub copy_time_point: C,
}

/// A button: its label, its action and the shortcut shown beside it.
pub struct ButtonInfo<C> {
    pub atoms: String,
    pub callback: C,
    pub app_shortcut: Option<&'static str>,
}

/// One entry of a menu.
pub enum MenuElement<C> {
    Button(ButtonInfo<C>),
    Separator,
}

impl<C> MenuElement<C> {
    /// A button entry with the given label, action and shortcut.
    pub fn button(atoms: String, callback: C, app_shortcut: Option<&'static str>) -> (e: Self)
        ensures
            e matches MenuElement::Button(b) && b.atoms == atoms && b.callback == callback && b.app_shortcut == app_shortcut,
    {
        MenuElement::Button(ButtonInfo { atoms, callback, app_shortcut })
    }
}

/// `e` is a button with label `label`, action `callback` and shortcut
/// `shortcut`.
pub open spec fn is_button<C>(e: MenuElement<C>, label: &str, callback: C, shortcut: Option<&'static str>) -> bool {
    e matches MenuElement::Button(b) && b.atoms@ == label@ && b.callback == callback && b.app_shortcut == shortcut
}

/// The viewer's menus, each with its title and its entries: "File" and
/// "Tools". Titles and labels are the untranslated message keys.
pub fn menus<C>(cb: MenuCallbacks<C>) -> (r: Vec<(String, Vec<MenuElement<C>>)>)
    ensures
        r@.len() == 2,
        r@[0].0@ == "File"@,
        r@[1].0@ == "Tools"@,
        ({
            let f = r@[0].1@;
            &&& f.len() == 10
            &&& is_button(f[0], "Rebuild", cb.rebuild, Some("Ctrl+L"))
            &&& f[1] is Separator
            &&& is_button(f[2], "Export", cb.export, Some("Ctrl+S"))
            &&& is_button(f[3], "Capture", cb.capture, Some("Ctrl+Alt+S"))
            &&& f[4] is Separator
            &&& is_button(f[5], "Set In Point", cb.set_in_point, Some("["))
            &&& is_button(f[6], "Set Out Point", cb.set_out_point, Some("]"))
            &&& is_button(f[7], "Reset In/Out Point", cb.reset_in_out_point, None)
            &&& f[8] is Separator
            &&& is_button(f[9], "Clear Font Cache", cb.clear_font_cache, None)
        }),
        ({
            let t = r@[1].1@;
            &&& t.len() == 10
            &&& is_button(t[0], "Subitem selector", cb.subitem_selector, Some("Ctrl+I"))
            &&& t[1] is Separator
            &&& is_button(t[2], "Profiler", cb.profiler_first, None)
            &&& t[3] is Separator
            &&& is_button(t[4], "Draw", cb.profiler_second, Some("Ctrl+D"))
            &&& is_button(t[5], "Rich text editor", cb.rich_text_editor, Some("Ctrl+R"))
            &&& is_button(t[6], "Font list", cb.font_list, Some("Ctrl+F"))
            &&& is_button(t[7], "Color", cb.color, Some("Ctrl+O"))
            &&& t[8] is Separator
            &&& is_button(t[9], "Copy time point", cb.copy_time_point, Some("T"))
        }),
{
    let file = vec![
        MenuElement::button(String::from_str("Rebuild"), cb.rebuild, Some("Ctrl+L")),
        MenuElement::Separator,
        MenuElement::button(String::from_str("Export"), cb.export, Some("Ctrl+S")),
        MenuElement::button(String::from_str("Capture"), cb.capture, Some("Ctrl+Alt+S")),
        MenuElement::Separator,
        MenuElement::button(String::from_str("Set In Point"), cb.set_in_point, Some("[")),
        MenuElement::button(String::from_str("Set Out Point"), cb.set_out_point, Some("]")),
        MenuElement::button(String::from_str("Reset In/Out Point"), cb.reset_in_out_point, None),
        MenuElement::Separator,
        MenuElement::button(String::from_str("Clear Font Cache"), cb.clear_font_cache, None),
    ];
    let tools = vec![
        MenuElement::button(String::from_str("Subitem selector"), cb.subitem_selector, Some("Ctrl+I")),
        MenuElement::Separator,
        MenuElement::button(String::from_str("Profiler"), cb.profiler_first, None),
        MenuElement::Separator,
        MenuElement::button(String::from_str("Draw"), cb.profiler_second, Some("Ctrl+D")),
        MenuElement::button(String::from_str("Rich text editor"), cb.rich_text_editor, Some("Ctrl+R")),
        MenuElement::button(String::from_str("Font list"), cb.font_list, Some("Ctrl+F")),
        MenuElement::button(String::from_str("Color"), cb.color, Some("Ctrl+O")),
        MenuElement::Separator,
        MenuElement::button(String::from_str("Copy time point"), cb.copy_time_point, Some("T")),
    ];
    vec![(String::from_str("File"), file), (String::from_str("Tools"), tools)]
}

} // verus!
