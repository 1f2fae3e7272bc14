//! Authority-side exposure mirror: the last known exposure table, the login
//! in use, and the decisions of the task that owns them. The task's outside
//! work — clipboard, HTTP — is handed back to the caller as an action on
//! plain values.

use vstd::prelude::*;

use crate::client::{Login, Status};
use crate::devices::{dev_views, Device, DeviceUpdate, DeviceView, UpdateView};
use crate::listing::{listing_text, parse_listing, parse_devices, render_listing};

verus! {

/// A command for the task owning the exposure mirror.
#[derive(Debug)]
pub enum DeviceCmd {
    /// Remember the login; exposure updates are sent under it from now on.
    Login(Login),
    /// Render the mirror as a clipboard listing.
    CopyToClipboard,
    /// Mutate the exposure table.
    Update(DeviceUpdate),
    /// Read a clipboard listing and add the devices it holds.
    Paste,
}

/// The outside work one command asks for: the task's caller performs it.
#[derive(Debug)]
pub enum DeviceAction {
    /// Nothing to do.
    Nothing,
    /// Put this text on the clipboard.
    SetClipboard(String),
    /// Send this update to the relay's exposure store and hand the returned
    /// table to [`ExposedState::update_device`].
    Post(DeviceUpdate),
}

/// The indices a removal request names, translated to the controller keys
/// of the mirror entries at those indices; an index beyond the mirror names
/// nothing.
pub open spec fn keys_at_indices(devs: Seq<DeviceView>, idxs: Seq<usize>) -> Seq<usize>
    decreases idxs.len(),
{
    if idxs.len() == 0 {
        Seq::empty()
    } else {
        let rest = keys_at_indices(devs, idxs.drop_first());
        if (idxs[0] as int) < devs.len() {
            seq![devs[idxs[0] as int].cc as usize] + rest
        } else {
            rest
        }
    }
}

/// The local mirror of the exposure table, with the login it was obtained
/// under.
pub struct ExposedState {
    pub devices: Vec<Device>,
    pub login: Option<Login>,
}

/// What one command asks of the task owning the mirror, and how the mirror
/// changes: a login is remembered; copying renders the listing of the
/// mirror; pasting posts an addition of whatever the clipboard listing
/// holds; a removal arrives as mirror indices and is posted as the
/// controller keys found there (the form the store expects); a clear empties
/// the mirror at once; plain additions are posted unchanged. Only a login
/// and a clear touch the mirror.
pub open spec fn device_decision(
    pre: ExposedState,
    cmd: DeviceCmd,
    clipboard: Option<String>,
    post: ExposedState,
    a: DeviceAction,
) -> bool {
    match cmd {
        DeviceCmd::Login(l) => post.login == Some(l) && post.devices@ == pre.devices@
            && a is Nothing,
        DeviceCmd::CopyToClipboard => post == pre && (match a {
            DeviceAction::SetClipboard(text) => text@ == listing_text(dev_views(pre.devices@)),
            _ => false,
        }),
        DeviceCmd::Paste => post == pre && (match clipboard {
            Some(content) => (match a {
                DeviceAction::Post(u) => u@ == UpdateView::Add(parse_listing(content@)),
                _ => false,
            }),
            None => a is Nothing,
        }),
        DeviceCmd::Update(u) => (match u@ {
            UpdateView::Remove(idxs) => post == pre && (match a {
                DeviceAction::Post(sent) => sent@ == UpdateView::Remove(
                    keys_at_indices(dev_views(pre.devices@), idxs),
                ),
                _ => false,
            }),
            UpdateView::Clear => post.devices@.len() == 0 && post.login == pre.login && (match a {
                DeviceAction::Post(sent) => sent@ is Clear,
                _ => false,
            }),
            UpdateView::Add(l) => post == pre && (match a {
                DeviceAction::Post(sent) => sent@ == UpdateView::Add(l),
                _ => false,
            }),
        }),
    }
}

impl ExposedState {
    /// An empty mirror, not logged in anywhere.
    pub fn new() -> (s: Self)
        ensures
            dev_views(s.devices@) == Seq::<DeviceView>::empty(),
            s.login is None,
    {
        let s = ExposedState { devices: Vec::new(), login: None };
        proof {
            assert(dev_views(s.devices@) =~= Seq::<DeviceView>::empty());
        }
        s
    }

    /// The clipboard listing of the mirror; the caller puts it on the
    /// clipboard.
    pub fn copy_to_clipboard(&self) -> (text: String)
        ensures
            text@ == listing_text(dev_views(self.devices@)),
    {
        render_listing(&self.devices)
    }

    /// The update a pasted clipboard listing asks for: add every device the
    /// listing holds.
    pub fn paste(&self, content: &str) -> (u: DeviceUpdate)
        ensures
            u@ == UpdateView::Add(parse_listing(content@)),
    {
        DeviceUpdate::Add(parse_devices(content))
    }

    /// Accepts the table the relay's exposure store returned as the new
    /// mirror.
    pub fn update_device(&mut self, devices: Vec<Device>)
        ensures
            final(self).devices@ == devices@,
            final(self).login == old(self).login,
    {
        self.devices = devices;
    }

    /// Decides what one command asks of the task, as [`device_decision`]
    /// demands. Only a login and a local clear touch the mirror here;
    /// everything else waits for the table the store returns.
    pub fn handle_command(&mut self, cmd: DeviceCmd, clipboard: Option<String>) -> (a:
        DeviceAction)
        ensures
            device_decision(*old(self), cmd, clipboard, *final(self), a),
    {
        match cmd {
            DeviceCmd::Login(l) => {
                self.login = Some(l);
                DeviceAction::Nothing
            },
            DeviceCmd::CopyToClipboard => DeviceAction::SetClipboard(self.copy_to_clipboard()),
            DeviceCmd::Paste => {
                match clipboard {
                    Some(content) => DeviceAction::Post(self.paste(content.as_str())),
                    None => DeviceAction::Nothing,
                }
            },
            DeviceCmd::Update(u) => {
                match u {
                    DeviceUpdate::Remove(idxs) => {
                        let keys = self.keys_for_indices(&idxs);
                        DeviceAction::Post(DeviceUpdate::Remove(keys))
                    },
                    DeviceUpdate::Clear => {
                        self.devices.clear();
                        DeviceAction::Post(DeviceUpdate::Clear)
                    },
                    DeviceUpdate::Add(l) => DeviceAction::Post(DeviceUpdate::Add(l)),
                }
            },
        }
    }

    /// Looks up the controller key of each named mirror entry, skipping
    /// indices that name none.
    fn keys_for_indices(&self, idxs: &Vec<usize>) -> (keys: Vec<usize>)
        ensures
            keys@ == keys_at_indices(dev_views(self.devices@), idxs@),
    {
        let ghost devs = dev_views(self.devices@);
        let mut keys: Vec<usize> = Vec::new();
        let mut i: usize = 0;
        proof {
            assert(idxs@.skip(0) =~= idxs@);
            assert(keys@ + keys_at_indices(devs, idxs@) =~= keys_at_indices(devs, idxs@));
        }
        while i < idxs.len()
            invariant
                0 <= i <= idxs@.len(),
                devs == dev_views(self.devices@),
                keys_at_indices(devs, idxs@) == keys@ + keys_at_indices(devs, idxs@.skip(i as int)),
            decreases idxs@.len() - i,
        {
            let idx = idxs[i];
            let ghost prev = keys@;
            if idx < self.devices.len() {
                keys.push(self.devices[idx].cc as usize);
            }
            proof {
                assert(idxs@.skip(i as int)[0] == idxs@[i as int]);
                assert(idxs@.skip(i as int).drop_first() =~= idxs@.skip(i as int + 1));
                if (idx as int) < devs.len() {
                    assert(devs[idx as int] == self.devices@[idx as int]@);
                    let key = devs[idx as int].cc as usize;
                    assert(keys@ =~= prev + seq![key]);
                    assert(prev + seq![key] + keys_at_indices(devs, idxs@.skip(i as int + 1)) =~= prev
                        + (seq![key] + keys_at_indices(devs, idxs@.skip(i as int + 1))));
                }
            }
            i = i + 1;
        }
        proof {
            assert(idxs@.skip(idxs@.len() as int) =~= Seq::<usize>::empty());
            assert(keys@ + Seq::<usize>::empty() =~= keys@);
        }
        keys
    }
}

/// The reaction to one status event: losing connectivity clears the local
/// exposure view, so that a stale table is never rendered as current.
pub fn status_reaction(status: &Status) -> (r: Option<DeviceCmd>)
    ensures
        match status {
            Status::Connection(up) => {
                &&& !(*up) ==> (match r {
                    Some(DeviceCmd::Update(u)) => u@ is Clear,
                    _ => false,
                })
                &&& *up ==> r is None
            },
            Status::Text(_) => r is None,
        },
{
    match status {
        Status::Connection(up) => {
            if !*up {
                Some(DeviceCmd::Update(DeviceUpdate::Clear))
            } else {
                None
            }
        },
        Status::Text(_) => None,
    }
}

} // verus!
