//! The clipboard listing format: one exposed mapping per line, the
//! controller number, widget label and description separated by commas, each
//! line ended by a newline. Copying renders this listing; pasting reads one
//! back, skipping every line that does not parse.

use vstd::prelude::*;

use crate::devices::{dev_views, device_from_strings, Device, DeviceView, UIType};
use crate::text::{
    dec_of, dec_val, is_digit, lemma_dec_of_val, lemma_split_first_sep, lemma_split_no_sep,
    split_on, split_str, u8_to_dec,
};

verus! {

/// One line of the listing: controller, label, description.
pub open spec fn listing_line(d: DeviceView) -> Seq<char> {
    dec_of(d.cc) + seq![','] + d.ui_type.label_view() + seq![','] + d.description
}

/// The listing of a table: one line per device, in table order, each ended
/// by a newline.
pub open spec fn listing_text(devs: Seq<DeviceView>) -> Seq<char>
    decreases devs.len(),
{
    if devs.len() == 0 {
        Seq::empty()
    } else {
        listing_line(devs[0]) + seq!['\n'] + listing_text(devs.drop_first())
    }
}

/// The device one listing line denotes: at least three comma-separated
/// fields (anything beyond the third is ignored), of which the first two
/// must parse as a controller number and a widget label.
pub open spec fn parse_line(line: Seq<char>) -> Option<DeviceView> {
    let fields = split_on(line, ',');
    if fields.len() >= 3 {
        device_from_strings(fields[0], fields[1], fields[2])
    } else {
        None
    }
}

/// The devices a sequence of lines denotes, skipping lines that do not
/// parse.
pub open spec fn parse_lines(lines: Seq<Seq<char>>) -> Seq<DeviceView>
    decreases lines.len(),
{
    if lines.len() == 0 {
        Seq::empty()
    } else {
        match parse_line(lines[0]) {
            Some(d) => seq![d] + parse_lines(lines.drop_first()),
            None => parse_lines(lines.drop_first()),
        }
    }
}

/// The devices a whole pasted text denotes.
pub open spec fn parse_listing(text: Seq<char>) -> Seq<DeviceView> {
    parse_lines(split_on(text, '\n'))
}

/// Renders the listing of a device table, one line per device.
pub fn render_listing(devices: &Vec<Device>) -> (text: String)
    ensures
        text@ == listing_text(dev_views(devices@)),
{
    proof {
        reveal_strlit(",");
        reveal_strlit("\n");
        assert(dev_views(devices@).skip(0) =~= dev_views(devices@));
    }
    let mut text = String::new();
    let mut i: usize = 0;
    while i < devices.len()
        invariant
            0 <= i <= devices@.len(),
            ","@ == seq![','],
            "\n"@ == seq!['\n'],
            listing_text(dev_views(devices@)) == text@ + listing_text(
                dev_views(devices@).skip(i as int),
            ),
        decreases devices@.len() - i,
    {
        let ghost prev = text@;
        let d = &devices[i];
        let number = u8_to_dec(d.cc);
        text.append(number.as_str());
        text.append(",");
        let label = d.ui_type.label();
        text.append(label.as_str());
        text.append(",");
        text.append(d.description.as_str());
        text.append("\n");
        proof {
            let views = dev_views(devices@);
            assert(views.skip(i as int)[0] == views[i as int]);
            assert(views[i as int] == devices@[i as int]@);
            assert(views.skip(i as int).drop_first() =~= views.skip(i as int + 1));
            assert(text@ =~= prev + listing_line(views[i as int]) + seq!['\n']);
            assert(prev + listing_line(views[i as int]) + seq!['\n'] + listing_text(
                views.skip(i as int + 1),
            ) =~= prev + (listing_line(views[i as int]) + seq!['\n'] + listing_text(
                views.skip(i as int + 1),
            )));
        }
        i = i + 1;
    }
    proof {
        assert(dev_views(devices@).skip(devices@.len() as int) =~= Seq::<DeviceView>::empty());
        assert(text@ + Seq::<char>::empty() =~= text@);
    }
    text
}

/// Reads a pasted listing back into devices, line by line; a line that does
/// not parse contributes nothing.
pub fn parse_devices(content: &str) -> (devices: Vec<Device>)
    ensures
        dev_views(devices@) == parse_listing(content@),
{
    let lines = split_str(content, '\n');
    let ghost lviews = lines@.map_values(|p: String| p@);
    let mut devices: Vec<Device> = Vec::new();
    let mut i: usize = 0;
    proof {
        assert(lviews.skip(0) =~= lviews);
        assert(dev_views(devices@) + parse_lines(lviews) =~= parse_lines(lviews));
    }
    while i < lines.len()
        invariant
            0 <= i <= lines@.len(),
            lviews == lines@.map_values(|p: String| p@),
            lviews == split_on(content@, '\n'),
            parse_listing(content@) == dev_views(devices@) + parse_lines(lviews.skip(i as int)),
        decreases lines@.len() - i,
    {
        let ghost prev = devices@;
        let line = &lines[i];
        let fields = split_str(line.as_str(), ',');
        let ghost fviews = fields@.map_values(|p: String| p@);
        proof {
            assert(lviews[i as int] == lines@[i as int]@);
            assert(lviews.skip(i as int)[0] == lviews[i as int]);
            assert(lviews.skip(i as int).drop_first() =~= lviews.skip(i as int + 1));
        }
        if fields.len() >= 3 {
            let cc = fields[0].clone();
            let ui = fields[1].clone();
            let description = fields[2].clone();
            proof {
                assert(cc@ == fviews[0]);
                assert(ui@ == fviews[1]);
                assert(description@ == fviews[2]);
            }
            let parsed = Device::from_string_args(cc, ui, description);
            match parsed {
                Some(d) => {
                    devices.push(d);
                    proof {
                        assert(parse_line(lviews[i as int]) == Some(d@));
                        assert(dev_views(devices@) =~= dev_views(prev) + seq![d@]);
                        assert(dev_views(prev) + seq![d@] + parse_lines(
                            lviews.skip(i as int + 1),
                        ) =~= dev_views(prev) + (seq![d@] + parse_lines(lviews.skip(i as int + 1))));
                    }
                },
                None => {
                    proof {
                        assert(parse_line(lviews[i as int]) is None);
                    }
                },
            }
        } else {
            proof {
                assert(split_on(lviews[i as int], ',').len() < 3);
                assert(parse_line(lviews[i as int]) is None);
            }
        }
        i = i + 1;
    }
    proof {
        assert(lviews.skip(lines@.len() as int) =~= Seq::<Seq<char>>::empty());
        assert(dev_views(devices@) + Seq::<DeviceView>::empty() =~= dev_views(devices@));
    }
    devices
}

/// No widget label carries a comma or a newline.
proof fn lemma_label_chars(k: UIType)
    ensures
        forall|j: int|
            0 <= j < k.label_view().len() ==> (#[trigger] k.label_view()[j]) != ','
                && k.label_view()[j] != '\n',
{
    let l = k.label_view();
    match k {
        UIType::Slide => {
            assert(l[0] == 's' && l[1] == 'l' && l[2] == 'i' && l[3] == 'd' && l[4] == 'e');
        },
        UIType::Check => {
            assert(l[0] == 'c' && l[1] == 'h' && l[2] == 'e' && l[3] == 'c' && l[4] == 'k');
        },
    }
}

/// One rendered line splits back into exactly its three fields, as long as
/// the description carries no comma.
proof fn lemma_split_listing_line(d: DeviceView)
    requires
        0 <= d.cc,
        forall|j: int| 0 <= j < d.description.len() ==> (#[trigger] d.description[j]) != ',',
    ensures
        split_on(listing_line(d), ',') =~~= seq![
            dec_of(d.cc),
            d.ui_type.label_view(),
            d.description,
        ],
{
    let line = listing_line(d);
    let dec = dec_of(d.cc);
    let label = d.ui_type.label_view();
    let desc = d.description;
    lemma_dec_of_val(d.cc);
    lemma_label_chars(d.ui_type);
    let k1 = dec.len() as int;
    assert(line[k1] == ',');
    assert forall|j: int| 0 <= j < k1 implies line[j] != ',' by {
        assert(line[j] == dec[j]);
        assert(is_digit(dec[j]));
    }
    lemma_split_first_sep(line, ',', k1);
    assert(line.take(k1) =~= dec);
    let rest1 = line.skip(k1 + 1);
    assert(rest1 =~= label + seq![','] + desc);
    let k2 = label.len() as int;
    assert(rest1[k2] == ',');
    assert forall|j: int| 0 <= j < k2 implies rest1[j] != ',' by {
        assert(rest1[j] == label[j]);
    }
    lemma_split_first_sep(rest1, ',', k2);
    assert(rest1.take(k2) =~= label);
    assert(rest1.skip(k2 + 1) =~= desc);
    lemma_split_no_sep(desc, ',');
    assert(split_on(line, ',') =~~= seq![dec] + (seq![label] + seq![desc]));
    assert(seq![dec] + (seq![label] + seq![desc]) =~~= seq![dec, label, desc]);
}

/// A rendered line is free of newlines, as long as the description is.
proof fn lemma_listing_line_no_newline(d: DeviceView)
    requires
        0 <= d.cc,
        forall|j: int| 0 <= j < d.description.len() ==> (#[trigger] d.description[j]) != '\n',
    ensures
        forall|j: int|
            0 <= j < listing_line(d).len() ==> (#[trigger] listing_line(d)[j]) != '\n',
{
    let line = listing_line(d);
    let dec = dec_of(d.cc);
    let label = d.ui_type.label_view();
    let desc = d.description;
    lemma_dec_of_val(d.cc);
    lemma_label_chars(d.ui_type);
    assert forall|j: int| 0 <= j < line.len() implies line[j] != '\n' by {
        if j < dec.len() {
            assert(line[j] == dec[j]);
            assert(is_digit(dec[j]));
        } else if j == dec.len() {
            assert(line[j] == ',');
        } else if j < dec.len() + 1 + label.len() {
            assert(line[j] == label[j - dec.len() - 1]);
        } else if j == dec.len() + 1 + label.len() {
            assert(line[j] == ',');
        } else {
            assert(line[j] == desc[j - dec.len() - label.len() - 2]);
        }
    }
}

/// A rendered line parses back to exactly its device.
proof fn lemma_parse_listing_line(d: DeviceView)
    requires
        0 <= d.cc <= 255,
        forall|j: int| 0 <= j < d.description.len() ==> (#[trigger] d.description[j]) != ',',
    ensures
        parse_line(listing_line(d)) == Some(d),
{
    lemma_split_listing_line(d);
    lemma_dec_of_val(d.cc);
    let fields = split_on(listing_line(d), ',');
    assert(fields.len() == 3);
    assert(fields[0] == dec_of(d.cc));
    assert(fields[1] == d.ui_type.label_view());
    assert(fields[2] == d.description);
    assert(UIType::kind_of_label(d.ui_type.label_view()) == Some(d.ui_type)) by {
        match d.ui_type {
            UIType::Slide => {
            },
            UIType::Check => {
                assert(UIType::Check.label_view()[0] != UIType::Slide.label_view()[0]);
            },
        }
    }
    assert(device_from_strings(fields[0], fields[1], fields[2]) == Some(
        DeviceView { cc: dec_val(dec_of(d.cc)), ui_type: d.ui_type, description: d.description },
    ));
    assert(DeviceView { cc: d.cc, ui_type: d.ui_type, description: d.description } =~= d);
}

/// The listing round-trips: the listing rendered from a table parses back
/// to exactly that table, provided no description carries a comma or a
/// newline — the listing has no way to quote them, so a table whose
/// descriptions do loses them in the copy.
pub proof fn lemma_listing_round_trip(devs: Seq<DeviceView>)
    requires
        forall|i: int| 0 <= i < devs.len() ==> 0 <= (#[trigger] devs[i]).cc <= 255,
        forall|i: int, j: int|
            0 <= i < devs.len() && 0 <= j < devs[i].description.len() ==> (
            #[trigger] devs[i].description[j]) != ',' && devs[i].description[j] != '\n',
    ensures
        parse_listing(listing_text(devs)) == devs,
    decreases devs.len(),
{
    if devs.len() == 0 {
        let lines0 = split_on(Seq::<char>::empty(), '\n');
        assert(lines0 == seq![Seq::<char>::empty()]);
        assert(parse_line(Seq::<char>::empty()) is None) by {
            assert(split_on(Seq::<char>::empty(), ',') == seq![Seq::<char>::empty()]);
        }
        assert(lines0.drop_first() =~= Seq::<Seq<char>>::empty());
        assert(parse_lines(lines0) == parse_lines(lines0.drop_first()));
        assert(devs =~= Seq::<DeviceView>::empty());
    } else {
        let d0 = devs[0];
        let line = listing_line(d0);
        let rest = listing_text(devs.drop_first());
        let text = listing_text(devs);
        assert(text == line + seq!['\n'] + rest);
        lemma_listing_line_no_newline(d0);
        assert(text[line.len() as int] == '\n');
        assert forall|j: int| 0 <= j < line.len() implies text[j] != '\n' by {
            assert(text[j] == line[j]);
        }
        lemma_split_first_sep(text, '\n', line.len() as int);
        assert(text.take(line.len() as int) =~= line);
        assert(text.skip(line.len() as int + 1) =~= rest);
        lemma_parse_listing_line(d0);
        assert forall|i: int|
            0 <= i < devs.drop_first().len() implies 0 <= (
        #[trigger] devs.drop_first()[i]).cc <= 255 by {
            assert(devs.drop_first()[i] == devs[i + 1]);
        }
        assert forall|i: int, j: int|
            0 <= i < devs.drop_first().len() && 0 <= j
                < devs.drop_first()[i].description.len() implies (
        #[trigger] devs.drop_first()[i].description[j]) != ','
            && devs.drop_first()[i].description[j] != '\n' by {
            assert(devs.drop_first()[i] == devs[i + 1]);
        }
        lemma_listing_round_trip(devs.drop_first());
        let lines = split_on(text, '\n');
        assert(lines =~~= seq![line] + split_on(rest, '\n'));
        assert(lines[0] == line);
        assert(parse_line(lines[0]) == Some(d0));
        assert(lines.drop_first() =~= split_on(rest, '\n'));
        assert(parse_lines(lines) == seq![d0] + parse_lines(split_on(rest, '\n')));
        assert(seq![d0] + devs.drop_first() =~= devs);
    }
}

} // verus!
