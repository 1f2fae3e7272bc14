//! Exposed control mappings: a controller key, the widget that renders it,
//! and a description.

use vstd::prelude::*;

use crate::text::{all_digits, dec_val, parse_u8, str_equal};

verus! {

/// The widget a viewer renders for one exposed control.
#[derive(Clone, Copy, PartialEq, Eq, Structural, Debug)]
pub enum UIType {
    Slide,
    Check,
}

impl UIType {
    /// The textual label of this widget kind.
    pub open spec fn label_view(self) -> Seq<char> {
        match self {
            UIType::Slide => seq!['s', 'l', 'i', 'd', 'e'],
            UIType::Check => seq!['c', 'h', 'e', 'c', 'k'],
        }
    }

    /// The label as a fresh string.
    pub fn label(&self) -> (s: String)
        ensures
            s@ == self.label_view(),
    {
        match self {
            UIType::Slide => {
                let s = String::from_str("slide");
                proof {
                    reveal_strlit("slide");
                    assert(s@ =~= self.label_view());
                }
                s
            },
            UIType::Check => {
                let s = String::from_str("check");
                proof {
                    reveal_strlit("check");
                    assert(s@ =~= self.label_view());
                }
                s
            },
        }
    }

    /// The widget kind a label denotes, if any.
    pub open spec fn kind_of_label(s: Seq<char>) -> Option<UIType> {
        if s == UIType::Slide.label_view() {
            Some(UIType::Slide)
        } else if s == UIType::Check.label_view() {
            Some(UIType::Check)
        } else {
            None
        }
    }

    /// Reads a widget kind from its label; anything else is refused.
    pub fn from_str(s: &str) -> (r: Option<UIType>)
        ensures
            r == UIType::kind_of_label(s@),
    {
        proof {
            reveal_strlit("slide");
            reveal_strlit("check");
            assert("slide"@ =~= UIType::Slide.label_view());
            assert("check"@ =~= UIType::Check.label_view());
        }
        if str_equal(s, "slide") {
            Some(UIType::Slide)
        } else if str_equal(s, "check") {
            Some(UIType::Check)
        } else {
            None
        }
    }

    /// The labels of every widget kind, in declaration order. The UI offers
    /// exactly these in its kind picker.
    pub fn to_vec() -> (v: Vec<String>)
        ensures
            v@.len() == 2,
            v@[0]@ == UIType::Slide.label_view(),
            v@[1]@ == UIType::Check.label_view(),
    {
        let mut v: Vec<String> = Vec::new();
        v.push(UIType::Slide.label());
        v.push(UIType::Check.label());
        v
    }
}

/// Spec-level image of a [`Device`].
#[verifier::ext_equal]
pub struct DeviceView {
    pub cc: int,
    pub ui_type: UIType,
    pub description: Seq<char>,
}

/// One exposed control mapping. The controller number is the primary key of
/// the exposure table.
#[derive(Debug)]
pub struct Device {
    pub cc: u8,
    pub ui_type: UIType,
    pub description: String,
}

impl View for Device {
    type V = DeviceView;

    open spec fn view(&self) -> DeviceView {
        DeviceView { cc: self.cc as int, ui_type: self.ui_type, description: self.description@ }
    }
}

impl Clone for Device {
    fn clone(&self) -> (d: Self)
        ensures
            d == *self,
    {
        Device { cc: self.cc, ui_type: self.ui_type, description: self.description.clone() }
    }
}

/// The views of a sequence of devices.
pub open spec fn dev_views(s: Seq<Device>) -> Seq<DeviceView> {
    s.map_values(|d: Device| d@)
}

/// The device that a controller string, a label string and a description
/// denote, if the first two parse.
pub open spec fn device_from_strings(cc: Seq<char>, ui: Seq<char>, description: Seq<char>) -> Option<
    DeviceView,
> {
    if cc.len() >= 1 && all_digits(cc) && dec_val(cc) <= 255 && UIType::kind_of_label(ui) is Some {
        Some(
            DeviceView {
                cc: dec_val(cc),
                ui_type: UIType::kind_of_label(ui)->0,
                description: description,
            },
        )
    } else {
        None
    }
}

impl Device {
    /// A mapping from its parts.
    pub fn new(cc: u8, ui_type: UIType, description: String) -> (d: Self)
        ensures
            d@ == (DeviceView { cc: cc as int, ui_type, description: description@ }),
    {
        Device { cc, ui_type, description }
    }

    /// A mapping read from strings, as the UI and the clipboard listing hand
    /// them over: a decimal controller number and a widget label. Refused
    /// whenever either does not parse.
    pub fn from_string_args(cc: String, ui_type: String, description: String) -> (r: Option<
        Device,
    >)
        ensures
            match r {
                Some(d) => device_from_strings(cc@, ui_type@, description@) == Some(d@),
                None => device_from_strings(cc@, ui_type@, description@) is None,
            },
    {
        let controller = parse_u8(cc.as_str());
        match controller {
            Some(n) => {
                let kind = UIType::from_str(ui_type.as_str());
                match kind {
                    Some(k) => Some(Device::new(n, k, description)),
                    None => None,
                }
            },
            None => None,
        }
    }
}

/// A request to mutate the exposure table: upsert mappings, drop keys, or
/// drop everything.
#[derive(Debug)]
pub enum DeviceUpdate {
    Add(Vec<Device>),
    Remove(Vec<usize>),
    Clear,
}

/// Spec-level image of a [`DeviceUpdate`].
pub enum UpdateView {
    Add(Seq<DeviceView>),
    Remove(Seq<usize>),
    Clear,
}

impl View for DeviceUpdate {
    type V = UpdateView;

    open spec fn view(&self) -> UpdateView {
        match self {
            DeviceUpdate::Add(devices) => UpdateView::Add(dev_views(devices@)),
            DeviceUpdate::Remove(keys) => UpdateView::Remove(keys@),
            DeviceUpdate::Clear => UpdateView::Clear,
        }
    }
}

} // verus!
