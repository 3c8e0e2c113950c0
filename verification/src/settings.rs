//! Settings of the debugger that the library has a part in: where session files go, the
//! debuginfod servers to ask, and the color palette of the user interface.

use vstd::prelude::*;
use vstd::string::*;
use crate::common_ui::Color;
use crate::common_ui::Modifier;
use crate::common_ui::Style;
use crate::common_ui::StyleAdjustment;

verus! {

/// Which directory under `~/.nnd/` holds the log, redirected output, saved state and the like.
pub enum SessionName {
    /// Pick the smallest available name "0", "1", ...
    Auto,
    /// Pick a directory like "temp-0" and clear it at the start.
    Temp,
    /// Create or touch no files: log, stdout etc. go to /dev/null, and a crash leaves no stack
    /// trace.
    NoFiles,
    /// Use the given name; refuse to start if it cannot be used (the other modes fall back to
    /// /dev/null).
    Name(String),
}

impl SessionName {
    pub fn is_temp(&self) -> (r: bool)
        ensures
            r == (*self is Temp),
    {
        match self {
            SessionName::Temp => true,
            _ => false,
        }
    }

    pub fn is_none(&self) -> (r: bool)
        ensures
            r == (*self is NoFiles),
    {
        match self {
            SessionName::NoFiles => true,
            _ => false,
        }
    }

    pub fn is_name(&self) -> (r: bool)
        ensures
            r == (*self is Name),
    {
        match self {
            SessionName::Name(_) => true,
            _ => false,
        }
    }
}

/// The colors and styles of the user interface.
pub struct Palette {
    pub default: Style,
    pub default_dim: Style,
    pub error: Style,
    pub warning: Style,

    pub running: Style,
    pub suspended: Style,
    pub function_name: Style,
    pub filename: Style,
    pub line_number: Style,
    pub column_number: Style,
    pub type_style: Style,
    pub field_name: Style,
    pub keyword: Style,
    pub hotkey: StyleAdjustment,

    pub state_running: Style,
    pub state_suspended: Style,
    pub state_other: Style,

    pub hint_global: Style,
    pub hint_state_dependent: Style,
    pub hint_window_dependent: Style,

    /// How to highlight things like selected table row or selected code line.
    pub selected: StyleAdjustment,
    /// How to highlight clickable widgets on mouse hover.
    pub hovered: StyleAdjustment,
    /// Line with instruction pointer in code or disassembly window.
    pub ip_line: StyleAdjustment,
    /// How to draw widgets with REDRAW_IF_VISIBLE flag, as a sort of loading indicator. It should be visible very rarely and only for one frame.
    pub placeholder_fill: Option<(char, Style)>,
    /// What to prepend/append when text is truncated on the left/right. E.g. '…'.
    pub truncation_indicator: (String, String, Style),
    /// What to show at left and right ends of something horizontally scrollable. E.g.: '<', '>'
    pub hscroll_indicator: (String, String, Style),
    pub line_wrap_indicator: (String, String, Style),

    pub table_header: Style,
    pub striped_table: StyleAdjustment,

    pub tab_selected: Style,
    pub tab_ephemeral: (String, Style),
    pub tab_deselected: Style,
    pub tab_separator: (String, Style),
    pub tab_drop_indicator: (String, Style),

    /// fg - left side, bg - right side.
    pub progress_bar: Style,

    pub scroll_bar_background: Style,
    pub scroll_bar_slider: Style,

    pub tooltip: StyleAdjustment,
    pub dialog: StyleAdjustment,

    pub text_input: Style,
    pub text_input_selected: Style,

    pub tree_indent: (String, Style),
    pub tree_indent_selected: (String, Style),
    pub tree_indent_limit_reached: (String, Style),

    pub window_border: Style,
    pub window_border_active: Style,
    pub window_border_captured: Style,
    pub window_border_super_captured: Style,
    pub window_title_active: Style,
    pub window_title_selected: Style,
    pub window_title_deselected: Style,
    pub window_title_separator: (String, Style),

    pub value: Style,
    pub value_misc: Style,
    pub value_dubious: StyleAdjustment,

    pub code_statement: Style,
    pub code_inlined_site: Style,
    pub code_keyword: Style,
    pub code_type: Style,
    pub code_function: Style,
    pub code_string: Style,
    pub code_escape: Style,
    pub code_number: Style,
    pub code_comment: Style,
    pub code_constant: Style,
    pub code_variable: Style,
    pub code_parameter: Style,
    pub code_property: Style,
    pub code_module: Style,
    pub code_attribute: Style,
    pub code_operator: Style,
    pub code_punctuation: Style,
    pub code_instruction_pointer_column: StyleAdjustment,
    pub search_result: StyleAdjustment,
    pub instruction_pointer: Style,
    pub additional_instruction_pointer: Style,
    pub breakpoint: Style,
    pub secondary_breakpoint: Style,
    pub code_line_number: Style,
    pub url: Style,
    pub disas_default: Style,
    pub disas_keyword: Style,
    pub disas_mnemonic: Style,
    pub disas_register: Style,
    pub disas_number: Style,
    pub disas_function: Style,
    pub disas_jump_arrow: Style,
    pub disas_relative_address: Style,
    pub disas_filename: Style,
    pub disas_address_statement: Style,
    pub disas_address_not_statement: Style,

    pub thread_breakpoint_hit: StyleAdjustment,
    pub thread_crash: StyleAdjustment,
    pub breakpoint_error: StyleAdjustment,
    pub breakpoint_builtin: StyleAdjustment,

    pub button: Style,
}

impl Default for Palette {
    /// Dark text on a light background.
    fn default() -> (r: Self)
        ensures
            r.default == (Style { fg: Color::Rgb(0x00, 0x00, 0x00), bg: Color::Rgb(255, 255, 255), modifier: Modifier { bits: 0 } }),
            r.default_dim == (Style { fg: Color::Rgb(0x60, 0x60, 0x60), bg: Color::Rgb(255, 255, 255), modifier: Modifier { bits: 0 } }),
            r.error == (Style { fg: Color::Rgb(0xcc, 0x00, 0x00), bg: Color::Rgb(255, 255, 255), modifier: Modifier { bits: 0 } }),
            r.warning == (Style { fg: Color::Rgb(0xb0, 0x60, 0x00), bg: Color::Rgb(255, 255, 255), modifier: Modifier { bits: 0 } }),
            r.running == (Style { fg: Color::Rgb(0x00, 0x54, 0xdf), bg: Color::Rgb(255, 255, 255), modifier: Modifier { bits: 0 } }),
            r.suspended == (Style { fg: Color::Rgb(0x00, 0x84, 0x2c), bg: Color::Rgb(255, 255, 255), modifier: Modifier { bits: 0 } }),
            r.function_name == (Style { fg: Color::Rgb(0x00, 0x00, 0x00), bg: Color::Rgb(255, 255, 255), modifier: Modifier { bits: 0 } }),
            r.filename == (Style { fg: Color::Rgb(0x00, 0x60, 0x60), bg: Color::Rgb(255, 255, 255), modifier: Modifier { bits: 0 } }),
            r.line_number == (Style { fg: Color::Rgb(0x00, 0x74, 0x00), bg: Color::Rgb(255, 255, 255), modifier: Modifier { bits: 0 } }),
            r.column_number == (Style { fg: Color::Rgb(0x2e, 0x7c, 0x2e), bg: Color::Rgb(255, 255, 255), modifier: Modifier { bits: 0 } }),
            r.type_style == (Style { fg: Color::Rgb(0x00, 0x00, 0x00), bg: Color::Rgb(255, 255, 255), modifier: Modifier { bits: 0 } }),
            r.field_name == (Style { fg: Color::Rgb(0x00, 0x74, 0x00), bg: Color::Rgb(255, 255, 255), modifier: Modifier { bits: 0 } }),
            r.keyword == (Style { fg: Color::Rgb(0x00, 0x00, 0x00), bg: Color::Rgb(255, 255, 255), modifier: Modifier { bits: 0 } }),
            r.hotkey == (StyleAdjustment { add_fg: (0i16, 0i16, 0i16), add_bg: (0i16, 0i16, 0i16), add_modifier: Modifier { bits: 2 }, remove_modifier: Modifier { bits: 0 } }),
            r.state_running == (Style { fg: Color::Rgb(0x00, 0x00, 0x00), bg: Color::Rgb(0xa8, 0xc0, 0xff), modifier: Modifier { bits: 0 } }),
            r.state_suspended == (Style { fg: Color::Rgb(0x00, 0x00, 0x00), bg: Color::Rgb(0x9a, 0xe6, 0x9a), modifier: Modifier { bits: 0 } }),
            r.state_other == (Style { fg: Color::Rgb(0x00, 0x00, 0x00), bg: Color::Rgb(0xff, 0xd0, 0x60), modifier: Modifier { bits: 0 } }),
            r.hint_global == (Style { fg: Color::Rgb(0x60, 0x60, 0x60), bg: Color::Rgb(255, 255, 255), modifier: Modifier { bits: 0 } }),
            r.hint_state_dependent == (Style { fg: Color::Rgb(0x8a, 0x50, 0x8a), bg: Color::Rgb(255, 255, 255), modifier: Modifier { bits: 0 } }),
            r.hint_window_dependent == (Style { fg: Color::Rgb(0x40, 0x80, 0x40), bg: Color::Rgb(255, 255, 255), modifier: Modifier { bits: 0 } }),
            r.selected == (StyleAdjustment { add_fg: (0i16, 0i16, 0i16), add_bg: (-40i16, -40i16, -40i16), add_modifier: Modifier { bits: 0 }, remove_modifier: Modifier { bits: 0 } }),
            r.hovered == (StyleAdjustment { add_fg: (0i16, 0i16, 0i16), add_bg: (-20i16, -20i16, -20i16), add_modifier: Modifier { bits: 0 }, remove_modifier: Modifier { bits: 0 } }),
            r.ip_line == (StyleAdjustment { add_fg: (0i16, 0i16, 0i16), add_bg: (-40i16, 0i16, -40i16), add_modifier: Modifier { bits: 0 }, remove_modifier: Modifier { bits: 0 } }),
            r.placeholder_fill == (Some(('.', Style { fg: Color::Rgb(0x90, 0x90, 0x90), bg: Color::Rgb(0xff, 0xff, 0xff), modifier: Modifier { bits: 0 } }))),
            r.truncation_indicator.0@ == "…"@,
            r.truncation_indicator.1@ == "…"@,
            r.truncation_indicator.2 == (Style { fg: Color::Rgb(0x60, 0x60, 0x60), bg: Color::Rgb(255, 255, 255), modifier: Modifier { bits: 0 } }),
            r.hscroll_indicator.0@ == "❮"@,
            r.hscroll_indicator.1@ == "❯"@,
            r.hscroll_indicator.2 == (Style { fg: Color::Rgb(0x60, 0x60, 0x60), bg: Color::Rgb(255, 255, 255), modifier: Modifier { bits: 0 } }),
            r.line_wrap_indicator.0@ == "↳"@,
            r.line_wrap_indicator.1@ == "↵"@,
            r.line_wrap_indicator.2 == (Style { fg: Color::Rgb(0x60, 0x60, 0x60), bg: Color::Rgb(255, 255, 255), modifier: Modifier { bits: 0 } }),
            r.table_header == (Style { fg: Color::Rgb(0x60, 0x60, 0x60), bg: Color::Rgb(255, 255, 255), modifier: Modifier { bits: 0 } }),
            r.striped_table == (StyleAdjustment { add_fg: (0i16, 0i16, 0i16), add_bg: (0i16, 0i16, 0i16), add_modifier: Modifier { bits: 0 }, remove_modifier: Modifier { bits: 0 } }),
            r.tab_selected == (Style { fg: Color::Rgb(0x00, 0x00, 0x00), bg: Color::Rgb(0xe4, 0xe4, 0xe4), modifier: Modifier { bits: 1 } }),
            r.tab_ephemeral.0@ == "∗"@,
            r.tab_ephemeral.1 == (Style { fg: Color::Rgb(0x00, 0x00, 0x00), bg: Color::Rgb(255, 255, 255), modifier: Modifier { bits: 0 } }),
            r.tab_deselected == (Style { fg: Color::Rgb(0x60, 0x60, 0x60), bg: Color::Rgb(255, 255, 255), modifier: Modifier { bits: 0 } }),
            r.tab_separator.0@ == " | "@,
            r.tab_separator.1 == (Style { fg: Color::Rgb(0x60, 0x60, 0x60), bg: Color::Rgb(255, 255, 255), modifier: Modifier { bits: 0 } }),
            r.tab_drop_indicator.0@ == ">>|<<"@,
            r.tab_drop_indicator.1 == (Style { fg: Color::Rgb(0x00, 0x00, 0x00), bg: Color::Rgb(255, 255, 255), modifier: Modifier { bits: 0 } }),
            r.progress_bar == (Style { fg: Color::Rgb(0x00, 0x54, 0xdf), bg: Color::Rgb(0xe4, 0xe4, 0xe4), modifier: Modifier { bits: 0 } }),
            r.scroll_bar_background == (Style { fg: Color::Rgb(0x60, 0x60, 0x60), bg: Color::Rgb(255, 255, 255), modifier: Modifier { bits: 0 } }),
            r.scroll_bar_slider == (Style { fg: Color::Rgb(0x60, 0x60, 0x60), bg: Color::Rgb(255, 255, 255), modifier: Modifier { bits: 0 } }),
            r.tooltip == (StyleAdjustment { add_fg: (0i16, 0i16, 0i16), add_bg: (-20i16, -15i16, -5i16), add_modifier: Modifier { bits: 0 }, remove_modifier: Modifier { bits: 0 } }),
            r.dialog == (StyleAdjustment { add_fg: (0i16, 0i16, 0i16), add_bg: (-15i16, -15i16, -15i16), add_modifier: Modifier { bits: 0 }, remove_modifier: Modifier { bits: 0 } }),
            r.text_input == (Style { fg: Color::Rgb(0x00, 0x00, 0x00), bg: Color::Rgb(255, 255, 255), modifier: Modifier { bits: 0 } }),
            r.text_input_selected == (Style { fg: Color::Rgb(0xff, 0xff, 0xff), bg: Color::Rgb(0x30, 0x5c, 0xd0), modifier: Modifier { bits: 0 } }),
            r.tree_indent.0@ == "┆"@,
            r.tree_indent.1 == (Style { fg: Color::Rgb(0x90, 0x90, 0x90), bg: Color::Rgb(255, 255, 255), modifier: Modifier { bits: 0 } }),
            r.tree_indent_selected.0@ == "┇"@,
            r.tree_indent_selected.1 == (Style { fg: Color::Rgb(0x00, 0x00, 0x00), bg: Color::Rgb(255, 255, 255), modifier: Modifier { bits: 0 } }),
            r.tree_indent_limit_reached.0@ == "┼"@,
            r.tree_indent_limit_reached.1 == (Style { fg: Color::Rgb(0x00, 0x00, 0x00), bg: Color::Rgb(255, 255, 255), modifier: Modifier { bits: 0 } }),
            r.window_border == (Style { fg: Color::Rgb(0x60, 0x60, 0x60), bg: Color::Rgb(255, 255, 255), modifier: Modifier { bits: 0 } }),
            r.window_border_active == (Style { fg: Color::Rgb(0x00, 0x00, 0x00), bg: Color::Rgb(255, 255, 255), modifier: Modifier { bits: 1 } }),
            r.window_border_captured == (Style { fg: Color::Rgb(0xff, 0xff, 0xff), bg: Color::Rgb(0x30, 0x5c, 0xd0), modifier: Modifier { bits: 1 } }),
            r.window_border_super_captured == (Style { fg: Color::Rgb(0xff, 0xff, 0xff), bg: Color::Rgb(0xb0, 0x60, 0x00), modifier: Modifier { bits: 1 } }),
            r.window_title_active == (Style { fg: Color::Rgb(0x00, 0x00, 0x00), bg: Color::Rgb(0xe4, 0xe4, 0xe4), modifier: Modifier { bits: 1 } }),
            r.window_title_selected == (Style { fg: Color::Rgb(0x00, 0x00, 0x00), bg: Color::Rgb(0xe4, 0xe4, 0xe4), modifier: Modifier { bits: 0 } }),
            r.window_title_deselected == (Style { fg: Color::Rgb(0x60, 0x60, 0x60), bg: Color::Rgb(255, 255, 255), modifier: Modifier { bits: 0 } }),
            r.window_title_separator.0@ == " | "@,
            r.window_title_separator.1 == (Style { fg: Color::Rgb(0x60, 0x60, 0x60), bg: Color::Rgb(255, 255, 255), modifier: Modifier { bits: 0 } }),
            r.value == (Style { fg: Color::Rgb(0x00, 0x00, 0x00), bg: Color::Rgb(255, 255, 255), modifier: Modifier { bits: 0 } }),
            r.value_misc == (Style { fg: Color::Rgb(0x60, 0x60, 0x60), bg: Color::Rgb(255, 255, 255), modifier: Modifier { bits: 0 } }),
            r.value_dubious == (StyleAdjustment { add_fg: (90i16, 90i16, 90i16), add_bg: (0i16, 0i16, 0i16), add_modifier: Modifier { bits: 0 }, remove_modifier: Modifier { bits: 0 } }),
            r.code_statement == (Style { fg: Color::Rgb(0x00, 0x00, 0x00), bg: Color::Rgb(0xd8, 0xd8, 0xd8), modifier: Modifier { bits: 0 } }),
            r.code_inlined_site == (Style { fg: Color::Rgb(0x00, 0x00, 0x00), bg: Color::Rgb(0xc8, 0xd0, 0xff), modifier: Modifier { bits: 0 } }),
            r.code_keyword == (Style { fg: Color::Rgb(0xb0, 0x00, 0x80), bg: Color::Rgb(255, 255, 255), modifier: Modifier { bits: 1 } }),
            r.code_type == (Style { fg: Color::Rgb(0x00, 0x66, 0x88), bg: Color::Rgb(255, 255, 255), modifier: Modifier { bits: 0 } }),
            r.code_function == (Style { fg: Color::Rgb(0x00, 0x6b, 0x4b), bg: Color::Rgb(255, 255, 255), modifier: Modifier { bits: 0 } }),
            r.code_string == (Style { fg: Color::Rgb(0x86, 0x66, 0x00), bg: Color::Rgb(255, 255, 255), modifier: Modifier { bits: 0 } }),
            r.code_escape == (Style { fg: Color::Rgb(0x99, 0x4d, 0x00), bg: Color::Rgb(255, 255, 255), modifier: Modifier { bits: 1 } }),
            r.code_number == (Style { fg: Color::Rgb(0x00, 0x60, 0x60), bg: Color::Rgb(255, 255, 255), modifier: Modifier { bits: 0 } }),
            r.code_comment == (Style { fg: Color::Rgb(0x80, 0x80, 0x80), bg: Color::Rgb(255, 255, 255), modifier: Modifier { bits: 0 } }),
            r.code_constant == (Style { fg: Color::Rgb(0xb3, 0x5c, 0x00), bg: Color::Rgb(255, 255, 255), modifier: Modifier { bits: 0 } }),
            r.code_variable == (Style { fg: Color::Rgb(0x00, 0x00, 0x00), bg: Color::Rgb(255, 255, 255), modifier: Modifier { bits: 0 } }),
            r.code_parameter == (Style { fg: Color::Rgb(0x3b, 0x80, 0x00), bg: Color::Rgb(255, 255, 255), modifier: Modifier { bits: 0 } }),
            r.code_property == (Style { fg: Color::Rgb(0x00, 0x74, 0x00), bg: Color::Rgb(255, 255, 255), modifier: Modifier { bits: 0 } }),
            r.code_module == (Style { fg: Color::Rgb(0x00, 0x60, 0x60), bg: Color::Rgb(255, 255, 255), modifier: Modifier { bits: 0 } }),
            r.code_attribute == (Style { fg: Color::Rgb(0x80, 0x38, 0xb8), bg: Color::Rgb(255, 255, 255), modifier: Modifier { bits: 0 } }),
            r.code_operator == (Style { fg: Color::Rgb(0xb0, 0x00, 0x80), bg: Color::Rgb(255, 255, 255), modifier: Modifier { bits: 0 } }),
            r.code_punctuation == (Style { fg: Color::Rgb(0x60, 0x60, 0x60), bg: Color::Rgb(255, 255, 255), modifier: Modifier { bits: 0 } }),
            r.code_instruction_pointer_column == (StyleAdjustment { add_fg: (-600i16, -600i16, -600i16), add_bg: (-100i16, 0i16, -100i16), add_modifier: Modifier { bits: 2 }, remove_modifier: Modifier { bits: 0 } }),
            r.search_result == (StyleAdjustment { add_fg: (0i16, 0i16, 0i16), add_bg: (0i16, 0i16, -140i16), add_modifier: Modifier { bits: 0 }, remove_modifier: Modifier { bits: 0 } }),
            r.instruction_pointer == (Style { fg: Color::Rgb(0x00, 0x74, 0x00), bg: Color::Rgb(255, 255, 255), modifier: Modifier { bits: 1 } }),
            r.additional_instruction_pointer == (Style { fg: Color::Rgb(0x00, 0x54, 0xdf), bg: Color::Rgb(255, 255, 255), modifier: Modifier { bits: 0 } }),
            r.breakpoint == (Style { fg: Color::Rgb(0xcc, 0x00, 0x00), bg: Color::Rgb(255, 255, 255), modifier: Modifier { bits: 0 } }),
            r.secondary_breakpoint == (Style { fg: Color::Rgb(0x00, 0x54, 0xdf), bg: Color::Rgb(255, 255, 255), modifier: Modifier { bits: 0 } }),
            r.code_line_number == (Style { fg: Color::Rgb(0x00, 0x00, 0x00), bg: Color::Rgb(255, 255, 255), modifier: Modifier { bits: 0 } }),
            r.url == (Style { fg: Color::Rgb(0x00, 0x54, 0xdf), bg: Color::Rgb(255, 255, 255), modifier: Modifier { bits: 0 } }),
            r.disas_default == (Style { fg: Color::Rgb(0x00, 0x00, 0x00), bg: Color::Rgb(255, 255, 255), modifier: Modifier { bits: 0 } }),
            r.disas_keyword == (Style { fg: Color::Rgb(0x60, 0x60, 0x60), bg: Color::Rgb(255, 255, 255), modifier: Modifier { bits: 0 } }),
            r.disas_mnemonic == (Style { fg: Color::Rgb(0x00, 0x74, 0x00), bg: Color::Rgb(255, 255, 255), modifier: Modifier { bits: 1 } }),
            r.disas_register == (Style { fg: Color::Rgb(0x00, 0x54, 0xdf), bg: Color::Rgb(255, 255, 255), modifier: Modifier { bits: 0 } }),
            r.disas_number == (Style { fg: Color::Rgb(0x00, 0x60, 0x60), bg: Color::Rgb(255, 255, 255), modifier: Modifier { bits: 0 } }),
            r.disas_function == (Style { fg: Color::Rgb(0x90, 0x00, 0x90), bg: Color::Rgb(255, 255, 255), modifier: Modifier { bits: 0 } }),
            r.disas_jump_arrow == (Style { fg: Color::Rgb(0x00, 0x00, 0x00), bg: Color::Rgb(255, 255, 255), modifier: Modifier { bits: 0 } }),
            r.disas_relative_address == (Style { fg: Color::Rgb(0x2a, 0x78, 0x78), bg: Color::Rgb(255, 255, 255), modifier: Modifier { bits: 0 } }),
            r.disas_filename == (Style { fg: Color::Rgb(0x2a, 0x78, 0x78), bg: Color::Rgb(255, 255, 255), modifier: Modifier { bits: 0 } }),
            r.disas_address_statement == (Style { fg: Color::Rgb(0x60, 0x60, 0x60), bg: Color::Rgb(255, 255, 255), modifier: Modifier { bits: 0 } }),
            r.disas_address_not_statement == (Style { fg: Color::Rgb(0x90, 0x90, 0x90), bg: Color::Rgb(255, 255, 255), modifier: Modifier { bits: 0 } }),
            r.thread_breakpoint_hit == (StyleAdjustment { add_fg: (0i16, 0i16, 0i16), add_bg: (-90i16, 0i16, -90i16), add_modifier: Modifier { bits: 0 }, remove_modifier: Modifier { bits: 0 } }),
            r.thread_crash == (StyleAdjustment { add_fg: (0i16, 0i16, 0i16), add_bg: (0i16, -100i16, -100i16), add_modifier: Modifier { bits: 0 }, remove_modifier: Modifier { bits: 0 } }),
            r.breakpoint_error == (StyleAdjustment { add_fg: (0i16, 0i16, 0i16), add_bg: (0i16, -100i16, -100i16), add_modifier: Modifier { bits: 0 }, remove_modifier: Modifier { bits: 0 } }),
            r.breakpoint_builtin == (StyleAdjustment { add_fg: (0i16, 0i16, 0i16), add_bg: (-30i16, -30i16, -30i16), add_modifier: Modifier { bits: 0 }, remove_modifier: Modifier { bits: 0 } }),
            r.button == (Style { fg: Color::Rgb(0x00, 0x00, 0x00), bg: Color::Rgb(0xd8, 0xd8, 0xd8), modifier: Modifier { bits: 0 } }),
    {
        Palette {
            default: Style { fg: Color::Rgb(0x00, 0x00, 0x00), bg: Color::Rgb(255, 255, 255), modifier: Modifier { bits: 0 } },
            default_dim: Style { fg: Color::Rgb(0x60, 0x60, 0x60), bg: Color::Rgb(255, 255, 255), modifier: Modifier { bits: 0 } },
            error: Style { fg: Color::Rgb(0xcc, 0x00, 0x00), bg: Color::Rgb(255, 255, 255), modifier: Modifier { bits: 0 } },
            warning: Style { fg: Color::Rgb(0xb0, 0x60, 0x00), bg: Color::Rgb(255, 255, 255), modifier: Modifier { bits: 0 } },
            running: Style { fg: Color::Rgb(0x00, 0x54, 0xdf), bg: Color::Rgb(255, 255, 255), modifier: Modifier { bits: 0 } },
            suspended: Style { fg: Color::Rgb(0x00, 0x84, 0x2c), bg: Color::Rgb(255, 255, 255), modifier: Modifier { bits: 0 } },
            function_name: Style { fg: Color::Rgb(0x00, 0x00, 0x00), bg: Color::Rgb(255, 255, 255), modifier: Modifier { bits: 0 } },
            filename: Style { fg: Color::Rgb(0x00, 0x60, 0x60), bg: Color::Rgb(255, 255, 255), modifier: Modifier { bits: 0 } },
            line_number: Style { fg: Color::Rgb(0x00, 0x74, 0x00), bg: Color::Rgb(255, 255, 255), modifier: Modifier { bits: 0 } },
            column_number: Style { fg: Color::Rgb(0x2e, 0x7c, 0x2e), bg: Color::Rgb(255, 255, 255), modifier: Modifier { bits: 0 } },
            type_style: Style { fg: Color::Rgb(0x00, 0x00, 0x00), bg: Color::Rgb(255, 255, 255), modifier: Modifier { bits: 0 } },
            field_name: Style { fg: Color::Rgb(0x00, 0x74, 0x00), bg: Color::Rgb(255, 255, 255), modifier: Modifier { bits: 0 } },
            keyword: Style { fg: Color::Rgb(0x00, 0x00, 0x00), bg: Color::Rgb(255, 255, 255), modifier: Modifier { bits: 0 } },
            hotkey: StyleAdjustment { add_fg: (0i16, 0i16, 0i16), add_bg: (0i16, 0i16, 0i16), add_modifier: Modifier { bits: 2 }, remove_modifier: Modifier { bits: 0 } },
            state_running: Style { fg: Color::Rgb(0x00, 0x00, 0x00), bg: Color::Rgb(0xa8, 0xc0, 0xff), modifier: Modifier { bits: 0 } },
            state_suspended: Style { fg: Color::Rgb(0x00, 0x00, 0x00), bg: Color::Rgb(0x9a, 0xe6, 0x9a), modifier: Modifier { bits: 0 } },
            state_other: Style { fg: Color::Rgb(0x00, 0x00, 0x00), bg: Color::Rgb(0xff, 0xd0, 0x60), modifier: Modifier { bits: 0 } },
            hint_global: Style { fg: Color::Rgb(0x60, 0x60, 0x60), bg: Color::Rgb(255, 255, 255), modifier: Modifier { bits: 0 } },
            hint_state_dependent: Style { fg: Color::Rgb(0x8a, 0x50, 0x8a), bg: Color::Rgb(255, 255, 255), modifier: Modifier { bits: 0 } },
            hint_window_dependent: Style { fg: Color::Rgb(0x40, 0x80, 0x40), bg: Color::Rgb(255, 255, 255), modifier: Modifier { bits: 0 } },
            selected: StyleAdjustment { add_fg: (0i16, 0i16, 0i16), add_bg: (-40i16, -40i16, -40i16), add_modifier: Modifier { bits: 0 }, remove_modifier: Modifier { bits: 0 } },
            hovered: StyleAdjustment { add_fg: (0i16, 0i16, 0i16), add_bg: (-20i16, -20i16, -20i16), add_modifier: Modifier { bits: 0 }, remove_modifier: Modifier { bits: 0 } },
            ip_line: StyleAdjustment { add_fg: (0i16, 0i16, 0i16), add_bg: (-40i16, 0i16, -40i16), add_modifier: Modifier { bits: 0 }, remove_modifier: Modifier { bits: 0 } },
            placeholder_fill: Some(('.', Style { fg: Color::Rgb(0x90, 0x90, 0x90), bg: Color::Rgb(0xff, 0xff, 0xff), modifier: Modifier { bits: 0 } })),
            truncation_indicator: ("…".to_owned(), "…".to_owned(), Style { fg: Color::Rgb(0x60, 0x60, 0x60), bg: Color::Rgb(255, 255, 255), modifier: Modifier { bits: 0 } }),
            hscroll_indicator: ("❮".to_owned(), "❯".to_owned(), Style { fg: Color::Rgb(0x60, 0x60, 0x60), bg: Color::Rgb(255, 255, 255), modifier: Modifier { bits: 0 } }),
            line_wrap_indicator: ("↳".to_owned(), "↵".to_owned(), Style { fg: Color::Rgb(0x60, 0x60, 0x60), bg: Color::Rgb(255, 255, 255), modifier: Modifier { bits: 0 } }),
            table_header: Style { fg: Color::Rgb(0x60, 0x60, 0x60), bg: Color::Rgb(255, 255, 255), modifier: Modifier { bits: 0 } },
            striped_table: StyleAdjustment { add_fg: (0i16, 0i16, 0i16), add_bg: (0i16, 0i16, 0i16), add_modifier: Modifier { bits: 0 }, remove_modifier: Modifier { bits: 0 } },
            tab_selected: Style { fg: Color::Rgb(0x00, 0x00, 0x00), bg: Color::Rgb(0xe4, 0xe4, 0xe4), modifier: Modifier { bits: 1 } },
            tab_ephemeral: ("∗".to_owned(), Style { fg: Color::Rgb(0x00, 0x00, 0x00), bg: Color::Rgb(255, 255, 255), modifier: Modifier { bits: 0 } }),
            tab_deselected: Style { fg: Color::Rgb(0x60, 0x60, 0x60), bg: Color::Rgb(255, 255, 255), modifier: Modifier { bits: 0 } },
            tab_separator: (" | ".to_owned(), Style { fg: Color::Rgb(0x60, 0x60, 0x60), bg: Color::Rgb(255, 255, 255), modifier: Modifier { bits: 0 } }),
            tab_drop_indicator: (">>|<<".to_owned(), Style { fg: Color::Rgb(0x00, 0x00, 0x00), bg: Color::Rgb(255, 255, 255), modifier: Modifier { bits: 0 } }),
            progress_bar: Style { fg: Color::Rgb(0x00, 0x54, 0xdf), bg: Color::Rgb(0xe4, 0xe4, 0xe4), modifier: Modifier { bits: 0 } },
            scroll_bar_background: Style { fg: Color::Rgb(0x60, 0x60, 0x60), bg: Color::Rgb(255, 255, 255), modifier: Modifier { bits: 0 } },
            scroll_bar_slider: Style { fg: Color::Rgb(0x60, 0x60, 0x60), bg: Color::Rgb(255, 255, 255), modifier: Modifier { bits: 0 } },
            tooltip: StyleAdjustment { add_fg: (0i16, 0i16, 0i16), add_bg: (-20i16, -15i16, -5i16), add_modifier: Modifier { bits: 0 }, remove_modifier: Modifier { bits: 0 } },
            dialog: StyleAdjustment { add_fg: (0i16, 0i16, 0i16), add_bg: (-15i16, -15i16, -15i16), add_modifier: Modifier { bits: 0 }, remove_modifier: Modifier { bits: 0 } },
            text_input: Style { fg: Color::Rgb(0x00, 0x00, 0x00), bg: Color::Rgb(255, 255, 255), modifier: Modifier { bits: 0 } },
            text_input_selected: Style { fg: Color::Rgb(0xff, 0xff, 0xff), bg: Color::Rgb(0x30, 0x5c, 0xd0), modifier: Modifier { bits: 0 } },
            tree_indent: ("┆".to_owned(), Style { fg: Color::Rgb(0x90, 0x90, 0x90), bg: Color::Rgb(255, 255, 255), modifier: Modifier { bits: 0 } }),
            tree_indent_selected: ("┇".to_owned(), Style { fg: Color::Rgb(0x00, 0x00, 0x00), bg: Color::Rgb(255, 255, 255), modifier: Modifier { bits: 0 } }),
            tree_indent_limit_reached: ("┼".to_owned(), Style { fg: Color::Rgb(0x00, 0x00, 0x00), bg: Color::Rgb(255, 255, 255), modifier: Modifier { bits: 0 } }),
            window_border: Style { fg: Color::Rgb(0x60, 0x60, 0x60), bg: Color::Rgb(255, 255, 255), modifier: Modifier { bits: 0 } },
            window_border_active: Style { fg: Color::Rgb(0x00, 0x00, 0x00), bg: Color::Rgb(255, 255, 255), modifier: Modifier { bits: 1 } },
            window_border_captured: Style { fg: Color::Rgb(0xff, 0xff, 0xff), bg: Color::Rgb(0x30, 0x5c, 0xd0), modifier: Modifier { bits: 1 } },
            window_border_super_captured: Style { fg: Color::Rgb(0xff, 0xff, 0xff), bg: Color::Rgb(0xb0, 0x60, 0x00), modifier: Modifier { bits: 1 } },
            window_title_active: Style { fg: Color::Rgb(0x00, 0x00, 0x00), bg: Color::Rgb(0xe4, 0xe4, 0xe4), modifier: Modifier { bits: 1 } },
            window_title_selected: Style { fg: Color::Rgb(0x00, 0x00, 0x00), bg: Color::Rgb(0xe4, 0xe4, 0xe4), modifier: Modifier { bits: 0 } },
            window_title_deselected: Style { fg: Color::Rgb(0x60, 0x60, 0x60), bg: Color::Rgb(255, 255, 255), modifier: Modifier { bits: 0 } },
            window_title_separator: (" | ".to_owned(), Style { fg: Color::Rgb(0x60, 0x60, 0x60), bg: Color::Rgb(255, 255, 255), modifier: Modifier { bits: 0 } }),
            value: Style { fg: Color::Rgb(0x00, 0x00, 0x00), bg: Color::Rgb(255, 255, 255), modifier: Modifier { bits: 0 } },
            value_misc: Style { fg: Color::Rgb(0x60, 0x60, 0x60), bg: Color::Rgb(255, 255, 255), modifier: Modifier { bits: 0 } },
            value_dubious: StyleAdjustment { add_fg: (90i16, 90i16, 90i16), add_bg: (0i16, 0i16, 0i16), add_modifier: Modifier { bits: 0 }, remove_modifier: Modifier { bits: 0 } },
            code_statement: Style { fg: Color::Rgb(0x00, 0x00, 0x00), bg: Color::Rgb(0xd8, 0xd8, 0xd8), modifier: Modifier { bits: 0 } },
            code_inlined_site: Style { fg: Color::Rgb(0x00, 0x00, 0x00), bg: Color::Rgb(0xc8, 0xd0, 0xff), modifier: Modifier { bits: 0 } },
            code_keyword: Style { fg: Color::Rgb(0xb0, 0x00, 0x80), bg: Color::Rgb(255, 255, 255), modifier: Modifier { bits: 1 } },
            code_type: Style { fg: Color::Rgb(0x00, 0x66, 0x88), bg: Color::Rgb(255, 255, 255), modifier: Modifier { bits: 0 } },
            code_function: Style { fg: Color::Rgb(0x00, 0x6b, 0x4b), bg: Color::Rgb(255, 255, 255), modifier: Modifier { bits: 0 } },
            code_string: Style { fg: Color::Rgb(0x86, 0x66, 0x00), bg: Color::Rgb(255, 255, 255), modifier: Modifier { bits: 0 } },
            code_escape: Style { fg: Color::Rgb(0x99, 0x4d, 0x00), bg: Color::Rgb(255, 255, 255), modifier: Modifier { bits: 1 } },
            code_number: Style { fg: Color::Rgb(0x00, 0x60, 0x60), bg: Color::Rgb(255, 255, 255), modifier: Modifier { bits: 0 } },
            code_comment: Style { fg: Color::Rgb(0x80, 0x80, 0x80), bg: Color::Rgb(255, 255, 255), modifier: Modifier { bits: 0 } },
            code_constant: Style { fg: Color::Rgb(0xb3, 0x5c, 0x00), bg: Color::Rgb(255, 255, 255), modifier: Modifier { bits: 0 } },
            code_variable: Style { fg: Color::Rgb(0x00, 0x00, 0x00), bg: Color::Rgb(255, 255, 255), modifier: Modifier { bits: 0 } },
            code_parameter: Style { fg: Color::Rgb(0x3b, 0x80, 0x00), bg: Color::Rgb(255, 255, 255), modifier: Modifier { bits: 0 } },
            code_property: Style { fg: Color::Rgb(0x00, 0x74, 0x00), bg: Color::Rgb(255, 255, 255), modifier: Modifier { bits: 0 } },
            code_module: Style { fg: Color::Rgb(0x00, 0x60, 0x60), bg: Color::Rgb(255, 255, 255), modifier: Modifier { bits: 0 } },
            code_attribute: Style { fg: Color::Rgb(0x80, 0x38, 0xb8), bg: Color::Rgb(255, 255, 255), modifier: Modifier { bits: 0 } },
            code_operator: Style { fg: Color::Rgb(0xb0, 0x00, 0x80), bg: Color::Rgb(255, 255, 255), modifier: Modifier { bits: 0 } },
            code_punctuation: Style { fg: Color::Rgb(0x60, 0x60, 0x60), bg: Color::Rgb(255, 255, 255), modifier: Modifier { bits: 0 } },
            code_instruction_pointer_column: StyleAdjustment { add_fg: (-600i16, -600i16, -600i16), add_bg: (-100i16, 0i16, -100i16), add_modifier: Modifier { bits: 2 }, remove_modifier: Modifier { bits: 0 } },
            search_result: StyleAdjustment { add_fg: (0i16, 0i16, 0i16), add_bg: (0i16, 0i16, -140i16), add_modifier: Modifier { bits: 0 }, remove_modifier: Modifier { bits: 0 } },
            instruction_pointer: Style { fg: Color::Rgb(0x00, 0x74, 0x00), bg: Color::Rgb(255, 255, 255), modifier: Modifier { bits: 1 } },
            additional_instruction_pointer: Style { fg: Color::Rgb(0x00, 0x54, 0xdf), bg: Color::Rgb(255, 255, 255), modifier: Modifier { bits: 0 } },
            breakpoint: Style { fg: Color::Rgb(0xcc, 0x00, 0x00), bg: Color::Rgb(255, 255, 255), modifier: Modifier { bits: 0 } },
            secondary_breakpoint: Style { fg: Color::Rgb(0x00, 0x54, 0xdf), bg: Color::Rgb(255, 255, 255), modifier: Modifier { bits: 0 } },
            code_line_number: Style { fg: Color::Rgb(0x00, 0x00, 0x00), bg: Color::Rgb(255, 255, 255), modifier: Modifier { bits: 0 } },
            url: Style { fg: Color::Rgb(0x00, 0x54, 0xdf), bg: Color::Rgb(255, 255, 255), modifier: Modifier { bits: 0 } },
            disas_default: Style { fg: Color::Rgb(0x00, 0x00, 0x00), bg: Color::Rgb(255, 255, 255), modifier: Modifier { bits: 0 } },
            disas_keyword: Style { fg: Color::Rgb(0x60, 0x60, 0x60), bg: Color::Rgb(255, 255, 255), modifier: Modifier { bits: 0 } },
            disas_mnemonic: Style { fg: Color::Rgb(0x00, 0x74, 0x00), bg: Color::Rgb(255, 255, 255), modifier: Modifier { bits: 1 } },
            disas_register: Style { fg: Color::Rgb(0x00, 0x54, 0xdf), bg: Color::Rgb(255, 255, 255), modifier: Modifier { bits: 0 } },
            disas_number: Style { fg: Color::Rgb(0x00, 0x60, 0x60), bg: Color::Rgb(255, 255, 255), modifier: Modifier { bits: 0 } },
            disas_function: Style { fg: Color::Rgb(0x90, 0x00, 0x90), bg: Color::Rgb(255, 255, 255), modifier: Modifier { bits: 0 } },
            disas_jump_arrow: Style { fg: Color::Rgb(0x00, 0x00, 0x00), bg: Color::Rgb(255, 255, 255), modifier: Modifier { bits: 0 } },
            disas_relative_address: Style { fg: Color::Rgb(0x2a, 0x78, 0x78), bg: Color::Rgb(255, 255, 255), modifier: Modifier { bits: 0 } },
            disas_filename: Style { fg: Color::Rgb(0x2a, 0x78, 0x78), bg: Color::Rgb(255, 255, 255), modifier: Modifier { bits: 0 } },
            disas_address_statement: Style { fg: Color::Rgb(0x60, 0x60, 0x60), bg: Color::Rgb(255, 255, 255), modifier: Modifier { bits: 0 } },
            disas_address_not_statement: Style { fg: Color::Rgb(0x90, 0x90, 0x90), bg: Color::Rgb(255, 255, 255), modifier: Modifier { bits: 0 } },
            thread_breakpoint_hit: StyleAdjustment { add_fg: (0i16, 0i16, 0i16), add_bg: (-90i16, 0i16, -90i16), add_modifier: Modifier { bits: 0 }, remove_modifier: Modifier { bits: 0 } },
            thread_crash: StyleAdjustment { add_fg: (0i16, 0i16, 0i16), add_bg: (0i16, -100i16, -100i16), add_modifier: Modifier { bits: 0 }, remove_modifier: Modifier { bits: 0 } },
            breakpoint_error: StyleAdjustment { add_fg: (0i16, 0i16, 0i16), add_bg: (0i16, -100i16, -100i16), add_modifier: Modifier { bits: 0 }, remove_modifier: Modifier { bits: 0 } },
            breakpoint_builtin: StyleAdjustment { add_fg: (0i16, 0i16, 0i16), add_bg: (-30i16, -30i16, -30i16), add_modifier: Modifier { bits: 0 }, remove_modifier: Modifier { bits: 0 } },
            button: Style { fg: Color::Rgb(0x00, 0x00, 0x00), bg: Color::Rgb(0xd8, 0xd8, 0xd8), modifier: Modifier { bits: 0 } },
        }
    }
}

/// ASCII white space, as `char::is_ascii_whitespace` has it.
pub open spec fn is_ascii_ws(c: char) -> bool {
    c == ' ' || c == '\t' || c == '\n' || c == '\x0C' || c == '\r'
}

/// The first position from `i` on that is not ASCII white space.
pub open spec fn skip_ascii_ws(s: Seq<char>, i: int) -> int
    decreases s.len() - i,
{
    if 0 <= i < s.len() && is_ascii_ws(s[i]) {
        skip_ascii_ws(s, i + 1)
    } else {
        i
    }
}

/// The first position from `i` on that is ASCII white space, or the length of `s`.
pub open spec fn word_end(s: Seq<char>, i: int) -> int
    decreases s.len() - i,
{
    if 0 <= i < s.len() && !is_ascii_ws(s[i]) {
        word_end(s, i + 1)
    } else {
        i
    }
}

pub proof fn lemma_skip_ascii_ws(s: Seq<char>, i: int)
    requires
        0 <= i <= s.len(),
    ensures
        i <= skip_ascii_ws(s, i) <= s.len(),
        skip_ascii_ws(s, i) < s.len() ==> !is_ascii_ws(s[skip_ascii_ws(s, i)]),
    decreases s.len() - i,
{
    if i < s.len() && is_ascii_ws(s[i]) {
        lemma_skip_ascii_ws(s, i + 1);
    }
}

pub proof fn lemma_word_end(s: Seq<char>, i: int)
    requires
        0 <= i <= s.len(),
    ensures
        i <= word_end(s, i) <= s.len(),
    decreases s.len() - i,
{
    if i < s.len() && !is_ascii_ws(s[i]) {
        lemma_word_end(s, i + 1);
    }
}

/// The words of `s` from position `i` on: the longest pieces without ASCII white space.
pub open spec fn words_from(s: Seq<char>, i: int) -> Seq<Seq<char>>
    decreases s.len() - i,
{
    if i < 0 || i > s.len() {
        Seq::empty()
    } else {
        let a = skip_ascii_ws(s, i);
        proof {
            lemma_skip_ascii_ws(s, i);
        }
        if a >= s.len() {
            Seq::empty()
        } else {
            let b = word_end(s, a);
            proof {
                lemma_word_end(s, a);
                lemma_word_end(s, a + 1);
                assert(b == word_end(s, a + 1));
            }
            seq![s.subrange(a, b)] + words_from(s, b)
        }
    }
}

/// The words of `s`, as `str::split_ascii_whitespace` splits it.
pub open spec fn words(s: Seq<char>) -> Seq<Seq<char>> {
    words_from(s, 0)
}

fn is_ascii_ws_char(c: char) -> (r: bool)
    ensures
        r == is_ascii_ws(c),
{
    c == ' ' || c == '\t' || c == '\n' || c == '\x0C' || c == '\r'
}

/// The debuginfod servers to ask: with `default`, the federated server at elfutils.org (which
/// asks about ten others); otherwise those listed, separated by white space, in the value of
/// the `DEBUGINFOD_URLS` environment variable (which the caller reads), if it is set.
pub fn get_debuginfod_urls(default: bool, env_value: Option<&str>) -> (r: Vec<String>)
    ensures
        default ==> r@.map_values(|u: String| u@) == seq!["https://debuginfod.elfutils.org/"@],
        !default && env_value is None ==> r@.len() == 0,
        !default && env_value is Some ==> r@.map_values(|u: String| u@) == words(env_value->0@),
{
    let mut r: Vec<String> = Vec::new();
    if default {
        r.push("https://debuginfod.elfutils.org/".to_owned());
        proof {
            assert(r@.map_values(|u: String| u@) =~= seq!["https://debuginfod.elfutils.org/"@]);
        }
        return r;
    }
    match env_value {
        None => r,
        Some(v) => {
            let n = v.unicode_len();
            let mut i: usize = 0;
            proof {
                assert(r@.map_values(|u: String| u@) =~= Seq::<Seq<char>>::empty());
            }
            while i < n
                invariant
                    n == v@.len(),
                    i <= n,
                    r@.map_values(|u: String| u@) + words_from(v@, i as int) == words(v@),
                decreases n - i,
            {
                let ghost i0 = i;
                let mut a = i;
                while a < n && is_ascii_ws_char(v.get_char(a))
                    invariant
                        n == v@.len(),
                        i0 <= a <= n,
                        skip_ascii_ws(v@, i0 as int) == skip_ascii_ws(v@, a as int),
                    decreases n - a,
                {
                    a = a + 1;
                }
                if a >= n {
                    proof {
                        assert(words_from(v@, i0 as int) =~= Seq::<Seq<char>>::empty());
                        assert(r@.map_values(|u: String| u@) + words_from(v@, n as int) =~= words(v@));
                    }
                    i = n;
                } else {
                    let mut b = a;
                    while b < n && !is_ascii_ws_char(v.get_char(b))
                        invariant
                            n == v@.len(),
                            a <= b <= n,
                            word_end(v@, a as int) == word_end(v@, b as int),
                        decreases n - b,
                    {
                        b = b + 1;
                    }
                    let word = v.substring_char(a, b);
                    let ghost before = r@;
                    r.push(word.to_owned());
                    proof {
                        assert(r@.map_values(|u: String| u@) =~= before.map_values(|u: String| u@).push(word@));
                        assert(words_from(v@, i0 as int) == seq![v@.subrange(a as int, b as int)] + words_from(v@, b as int));
                        assert(r@.map_values(|u: String| u@) + words_from(v@, b as int) =~= words(v@));
                    }
                    i = b;
                }
            }
            proof {
                assert(words_from(v@, n as int) =~= Seq::<Seq<char>>::empty());
                assert(r@.map_values(|u: String| u@) =~= words(v@));
            }
            r
        },
    }
}

} // verus!
