//! Painting images and form controls.
use vstd::prelude::*;
use crate::boxes::{BoxType, BoxV, LayoutBox};
use crate::display::{command_views, emit, CommandV, DisplayCommand, FieldV};
use crate::geometry::{EdgeSizes, Rect};
use crate::images::ObjectFit;
use crate::num::Num;
use crate::sizing::FormControlType;
use crate::style::{Color, Length};

verus! {

/// A padding the painter reads: percentages and other units count as none.
pub open spec fn control_px(l: Length, font_size: Num, root: Num) -> Num {
    match l {
        Length::Px(v) => v,
        Length::Em(em) => em * font_size,
        Length::Rem(rem) => rem * root,
        _ => Num::nought(),
    }
}

fn resolve_control_px(l: Length, font_size: Num, root: Num) -> (r: Num)
    ensures
        r == control_px(l, font_size, root),
{
    match l {
        Length::Px(v) => v,
        Length::Em(em) => em * font_size,
        Length::Rem(rem) => rem * root,
        _ => Num::zero(),
    }
}

/// The author's padding of a control.
pub open spec fn control_padding(b: BoxV, root: Num) -> EdgeSizes {
    let s = b.own.style;
    EdgeSizes {
        top: control_px(s.padding_top, s.font_px(), root),
        right: control_px(s.padding_right, s.font_px(), root),
        bottom: control_px(s.padding_bottom, s.font_px(), root),
        left: control_px(s.padding_left, s.font_px(), root),
    }
}

fn padding_of(layout_box: &LayoutBox, root: Num) -> (r: EdgeSizes)
    ensures
        r == control_padding(layout_box@, root),
{
    let s = &layout_box.style;
    let size = s.font_size_px();
    EdgeSizes {
        top: resolve_control_px(s.padding_top, size, root),
        right: resolve_control_px(s.padding_right, size, root),
        bottom: resolve_control_px(s.padding_bottom, size, root),
        left: resolve_control_px(s.padding_left, size, root),
    }
}

/// A color, or another where it is fully transparent.
pub open spec fn or_color(c: Color, other: Color) -> Color {
    if c.a > Num::nought() {
        c
    } else {
        other
    }
}

fn color_or(c: Color, other: Color) -> (r: Color)
    ensures
        r == or_color(c, other),
{
    if c.a > Num::zero() {
        c
    } else {
        other
    }
}

/// A text field that shows a value, in the style of a box.
pub open spec fn field(
    b: BoxV,
    root: Num,
    value: Seq<char>,
    placeholder: Seq<char>,
    focused: bool,
    caret_position: Option<usize>,
) -> CommandV {
    let s = b.own.style;
    CommandV::Field(
        FieldV {
            rect: b.dim.content,
            value,
            placeholder,
            font_size: s.font_px(),
            text_color: s.color,
            placeholder_color: Color::gray(160),
            background_color: s.background_color,
            border_color: or_color(s.border_top_color, Color::gray(200)),
            border_width: Num::whole(1),
            focused,
            caret_position,
            font_family: s.font_family@,
            font_weight: s.font_weight.0,
            padding: control_padding(b, root),
        },
    )
}

fn push_field(
    out: &mut Vec<DisplayCommand>,
    layout_box: &LayoutBox,
    root: Num,
    value: String,
    placeholder: String,
    focused: bool,
    caret_position: Option<usize>,
)
    ensures
        command_views(final(out)@) == command_views(old(out)@) + seq![
            field(layout_box@, root, value@, placeholder@, focused, caret_position),
        ],
{
    let s = &layout_box.style;
    emit(
        out,
        DisplayCommand::TextInput {
            rect: layout_box.dimensions.content,
            value,
            placeholder,
            font_size: s.font_size_px(),
            text_color: s.color,
            placeholder_color: Color::opaque_gray(160),
            background_color: s.background_color,
            border_color: color_or(s.border_top_color, Color::opaque_gray(200)),
            border_width: Num::of(1),
            focused,
            caret_position,
            font_family: s.font_family.clone(),
            font_weight: s.font_weight.0,
            padding: padding_of(layout_box, root),
        },
    );
}

/// The option a select shows: the selected one, or nothing.
pub open spec fn shown_option(options: Seq<String>, selected_index: Option<usize>) -> Seq<char> {
    match selected_index {
        Some(i) => if i < options.len() {
            options[i as int]@
        } else {
            Seq::empty()
        },
        None => Seq::empty(),
    }
}

/// The command of a button.
pub open spec fn button(b: BoxV, root: Num, label: String) -> CommandV {
    let s = b.own.style;
    CommandV::Plain(
        DisplayCommand::Button {
            rect: b.dim.content,
            label,
            font_size: s.font_px(),
            text_color: or_color(s.color, Color::gray(0)),
            background_color: or_color(s.background_color, Color::gray(239)),
            border_color: or_color(s.border_top_color, Color::gray(180)),
            border_width: Num::whole(1),
            border_radius: Num::whole(4),
            pressed: false,
            focused: false,
            font_family: s.font_family,
            font_weight: s.font_weight.0,
            padding: control_padding(b, root),
        },
    )
}

/// The commands of a checkbox: a filled square with a border, and an inner
/// square where it is checked.
pub open spec fn checkbox(b: BoxV, checked: bool) -> Seq<CommandV> {
    let s = b.own.style;
    let rect = b.dim.content;
    let one = Num::whole(1);
    seq![
        CommandV::Plain(
            DisplayCommand::SolidColor(or_color(s.background_color, Color::gray(255)), rect),
        ),
        CommandV::Plain(
            DisplayCommand::Border {
                color: Color::gray(150),
                rect,
                top: one,
                right: one,
                bottom: one,
                left: one,
            },
        ),
    ] + (if checked {
        seq![
            CommandV::Plain(
                DisplayCommand::SolidColor(
                    s.color,
                    Rect {
                        x: rect.x + Num::whole(3),
                        y: rect.y + Num::whole(3),
                        width: rect.width - Num::whole(6),
                        height: rect.height - Num::whole(6),
                    },
                ),
            ),
        ]
    } else {
        Seq::empty()
    })
}

/// The commands of a radio button: a filled disc with a ring, and a dot where
/// it is checked.
pub open spec fn radio(b: BoxV, checked: bool) -> Seq<CommandV> {
    let s = b.own.style;
    let rect = b.dim.content;
    let two = Num::whole(2);
    seq![
        CommandV::Plain(
            DisplayCommand::FillEllipse {
                rect,
                color: or_color(s.background_color, Color::gray(255)),
            },
        ),
        CommandV::Plain(
            DisplayCommand::StrokeCircle {
                cx: rect.x + rect.width / two,
                cy: rect.y + rect.height / two,
                radius: rect.width / two - Num::whole(1),
                color: Color::gray(150),
                width: Num::whole(1),
            },
        ),
    ] + (if checked {
        seq![
            CommandV::Plain(
                DisplayCommand::FillCircle {
                    cx: rect.x + rect.width / two,
                    cy: rect.y + rect.height / two,
                    radius: rect.width / Num::whole(4),
                    color: s.color,
                },
            ),
        ]
    } else {
        Seq::empty()
    })
}

/// The commands of a form control. The focused text control shows its caret.
pub open spec fn control(b: BoxV, root: Num, c: FormControlType) -> Seq<CommandV> {
    let caret = b.own.focused_caret;
    match c {
        FormControlType::TextInput { value, placeholder, .. } => seq![
            field(b, root, value@, placeholder@, caret is Some, caret),
        ],
        FormControlType::TextArea { value, placeholder, .. } => seq![
            field(b, root, value@, placeholder@, caret is Some, caret),
        ],
        FormControlType::Button { label, .. } => seq![button(b, root, label)],
        FormControlType::Checkbox { checked } => checkbox(b, checked),
        FormControlType::Radio { checked, .. } => radio(b, checked),
        FormControlType::Select { options, selected_index, .. } => seq![
            field(
                b,
                root,
                shown_option(options@, selected_index),
                Seq::empty(),
                false,
                None,
            ),
        ],
    }
}

/// The command of an image: drawn into the content box as `object-fit` and
/// `object-position` say.
pub open spec fn image(b: BoxV, url: String, width: Num, height: Num) -> CommandV {
    let s = b.own.style;
    let fit = ObjectFit::of(s.object_fit@);
    CommandV::Plain(
        DisplayCommand::Image {
            url,
            src_rect: None,
            dest_rect: fit.fitted(b.dim.content, width, height, s.object_position),
            object_fit: fit,
            opacity: s.opacity,
            current_color: s.color,
        },
    )
}

/// The commands for replaced content: an image or a form control.
pub open spec fn replaced(b: BoxV, root: Num) -> Seq<CommandV> {
    match b.own.box_type {
        BoxType::Image { url, natural_width, natural_height } => seq![
            image(b, url, natural_width, natural_height),
        ],
        BoxType::FormControl(c) => control(b, root, c),
        _ => Seq::empty(),
    }
}

fn render_checkbox(out: &mut Vec<DisplayCommand>, layout_box: &LayoutBox, checked: bool)
    ensures
        command_views(final(out)@) == command_views(old(out)@) + checkbox(layout_box@, checked),
{
    let s = &layout_box.style;
    let rect = layout_box.dimensions.content;
    let one = Num::of(1);
    emit(
        out,
        DisplayCommand::SolidColor(color_or(s.background_color, Color::opaque_gray(255)), rect),
    );
    emit(
        out,
        DisplayCommand::Border {
            color: Color::opaque_gray(150),
            rect,
            top: one,
            right: one,
            bottom: one,
            left: one,
        },
    );
    if checked {
        let inner = Rect {
            x: rect.x + Num::of(3),
            y: rect.y + Num::of(3),
            width: rect.width - Num::of(6),
            height: rect.height - Num::of(6),
        };
        emit(out, DisplayCommand::SolidColor(s.color, inner));
    }
    proof {
        assert(command_views(out@) =~= command_views(old(out)@) + checkbox(layout_box@, checked));
    }
}

fn render_radio(out: &mut Vec<DisplayCommand>, layout_box: &LayoutBox, checked: bool)
    ensures
        command_views(final(out)@) == command_views(old(out)@) + radio(layout_box@, checked),
{
    let s = &layout_box.style;
    let rect = layout_box.dimensions.content;
    let two = Num::of(2);
    emit(
        out,
        DisplayCommand::FillEllipse {
            rect,
            color: color_or(s.background_color, Color::opaque_gray(255)),
        },
    );
    emit(
        out,
        DisplayCommand::StrokeCircle {
            cx: rect.x + rect.width / two,
            cy: rect.y + rect.height / two,
            radius: rect.width / two - Num::of(1),
            color: Color::opaque_gray(150),
            width: Num::of(1),
        },
    );
    if checked {
        emit(
            out,
            DisplayCommand::FillCircle {
                cx: rect.x + rect.width / two,
                cy: rect.y + rect.height / two,
                radius: rect.width / Num::of(4),
                color: s.color,
            },
        );
    }
    proof {
        assert(command_views(out@) =~= command_views(old(out)@) + radio(layout_box@, checked));
    }
}

/// Render a form control.
pub(crate) fn render_form_control(
    out: &mut Vec<DisplayCommand>,
    layout_box: &LayoutBox,
    c: &FormControlType,
    root: Num,
)
    ensures
        command_views(final(out)@) == command_views(old(out)@) + control(layout_box@, root, *c),
{
    let s = &layout_box.style;
    let caret = layout_box.focused_caret;
    match c {
        FormControlType::TextInput { value, placeholder, .. } => {
            push_field(
                out,
                layout_box,
                root,
                value.clone(),
                placeholder.clone(),
                caret.is_some(),
                caret,
            );
        },
        FormControlType::TextArea { value, placeholder, .. } => {
            push_field(
                out,
                layout_box,
                root,
                value.clone(),
                placeholder.clone(),
                caret.is_some(),
                caret,
            );
        },
        FormControlType::Button { label, .. } => {
            emit(
                out,
                DisplayCommand::Button {
                    rect: layout_box.dimensions.content,
                    label: label.clone(),
                    font_size: s.font_size_px(),
                    text_color: color_or(s.color, Color::opaque_gray(0)),
                    background_color: color_or(s.background_color, Color::opaque_gray(239)),
                    border_color: color_or(s.border_top_color, Color::opaque_gray(180)),
                    border_width: Num::of(1),
                    border_radius: Num::of(4),
                    pressed: false,
                    focused: false,
                    font_family: s.font_family.clone(),
                    font_weight: s.font_weight.0,
                    padding: padding_of(layout_box, root),
                },
            );
        },
        FormControlType::Checkbox { checked } => {
            render_checkbox(out, layout_box, *checked);
        },
        FormControlType::Radio { checked, .. } => {
            render_radio(out, layout_box, *checked);
        },
        FormControlType::Select { options, selected_index, .. } => {
            let value: String = match *selected_index {
                Some(i) => if i < options.len() {
                    options[i].clone()
                } else {
                    String::new()
                },
                None => String::new(),
            };
            proof {
                assert(value@ =~= shown_option(options@, *selected_index));
            }
            let placeholder = String::new();
            proof {
                assert(placeholder@ =~= Seq::<char>::empty());
            }
            push_field(out, layout_box, root, value, placeholder, false, None);
        },
    }
}

/// Render replaced content (images and form controls).
pub(crate) fn render_replaced_content(
    out: &mut Vec<DisplayCommand>,
    layout_box: &LayoutBox,
    root: Num,
)
    ensures
        command_views(final(out)@) == command_views(old(out)@) + replaced(layout_box@, root),
{
    match &layout_box.box_type {
        BoxType::Image { url, natural_width, natural_height } => {
            let s = &layout_box.style;
            let object_fit = ObjectFit::from_keyword(&s.object_fit);
            let drawn = object_fit.compute_rect(
                layout_box.dimensions.content,
                *natural_width,
                *natural_height,
                s.object_position,
            );
            emit(
                out,
                DisplayCommand::Image {
                    url: url.clone(),
                    src_rect: drawn.src,
                    dest_rect: drawn.dest,
                    object_fit,
                    opacity: s.opacity,
                    current_color: s.color,
                },
            );
        },
        BoxType::FormControl(c) => {
            render_form_control(out, layout_box, c, root);
        },
        _ => {
            proof {
                assert(command_views(out@) =~= command_views(old(out)@) + replaced(
                    layout_box@,
                    root,
                ));
            }
        },
    }
}

} // verus!
