//! What the daemon answers to each request, and where its socket lives.

use vstd::prelude::*;
use crate::name_list::{ascending, texts, rank};
use crate::protocol::{Request, Response, SelectAction, ToggleAction};
use crate::state::{Cycles, CyclesState, next_position, selected, selected_positions, toggled};

verus! {

/// The file name of the daemon's socket.
pub open spec fn socket_file_name() -> Seq<char> {
    "i3-cycles.sock"@
}

/// `file` joined under the directory `dir`, as a Unix path: a `/` goes
/// between them unless `dir` is empty or already ends in one.
pub open spec fn joined_path(dir: Seq<char>, file: Seq<char>) -> Seq<char> {
    if dir.len() > 0 && dir.last() != '/' {
        dir + seq!['/'] + file
    } else {
        dir + file
    }
}

/// A joined path is the directory, then exactly one `/` unless the
/// directory is empty or already ends in one, then the file name; so for a
/// non-empty directory the character just before the file name is `/`.
pub proof fn lemma_joined_path_shape(dir: Seq<char>, file: Seq<char>)
    ensures
        joined_path(dir, file).len() == dir.len() + file.len() + (if dir.len() > 0 && dir.last()
            != '/' {
            1int
        } else {
            0int
        }),
        joined_path(dir, file).subrange(0, dir.len() as int) == dir,
        joined_path(dir, file).subrange(
            joined_path(dir, file).len() - file.len(),
            joined_path(dir, file).len() as int,
        ) == file,
        dir.len() > 0 ==> joined_path(dir, file)[joined_path(dir, file).len() - file.len() - 1]
            == '/',
{
    let j = joined_path(dir, file);
    assert(j.subrange(0, dir.len() as int) =~= dir);
    assert(j.subrange(j.len() - file.len(), j.len() as int) =~= file);
    if dir.len() > 0 && dir.last() == '/' {
        assert(j[j.len() - file.len() - 1] == dir[dir.len() - 1]);
    }
}

/// The path of the daemon's socket, given the value of `XDG_RUNTIME_DIR`
/// (`None` when it is unset or not valid text, and then `/tmp` is used).
pub fn get_socket_path(runtime_dir: Option<&str>) -> (path: String)
    ensures
        path@ == joined_path(
            match runtime_dir {
                Some(d) => d@,
                None => "/tmp"@,
            },
            socket_file_name(),
        ),
{
    let dir: &str = match runtime_dir {
        Some(d) => d,
        None => "/tmp",
    };
    let mut path = String::from_str(dir);
    let n = dir.unicode_len();
    if n > 0 && dir.get_char(n - 1) != '/' {
        path.append("/");
        proof {
            reveal_strlit("/");
        }
    }
    path.append("i3-cycles.sock");
    path
}

/// What carrying out `request` does to the state `s`.
pub open spec fn request_effect(s: CyclesState, request: Request) -> CyclesState {
    let m = s.0;
    let p = s.1;
    let a = s.2;
    match request {
        Request::Next => {
            if m[a].len() < 2 {
                s
            } else {
                (m, p.insert(a, next_position(p[a], m[a].len())), a)
            }
        },
        Request::Toggle { workspace } => (m.insert(a, toggled(m[a], workspace@)), p, a),
        Request::SelectCycle { name } => (
            selected(m, a, name@),
            selected_positions(p, m, a, name@),
            name@,
        ),
        Request::ListCycles => s,
        Request::Status => s,
    }
}

/// The state after carrying out `requests` in order, starting from `s`.
pub open spec fn run_requests(s: CyclesState, requests: Seq<Request>) -> CyclesState
    decreases requests.len(),
{
    if requests.len() == 0 {
        s
    } else {
        request_effect(run_requests(s, requests.drop_last()), requests.last())
    }
}

/// `request` selects the cycle named `a`.
pub open spec fn selects(request: Request, a: Seq<char>) -> bool {
    request matches Request::SelectCycle { name } && name@ == a
}

/// A cycle that is not active keeps its workspaces and its position through
/// any run of requests that never selects it.
pub proof fn lemma_unselected_cycle_kept(s: CyclesState, requests: Seq<Request>, a: Seq<char>)
    requires
        s.0.dom().contains(a),
        s.1.dom().contains(a),
        s.2 != a,
        forall|i: int| 0 <= i < requests.len() ==> !selects(#[trigger] requests[i], a),
    ensures
        run_requests(s, requests).0.dom().contains(a),
        run_requests(s, requests).1.dom().contains(a),
        run_requests(s, requests).2 != a,
        run_requests(s, requests).0[a] == s.0[a],
        run_requests(s, requests).1[a] == s.1[a],
    decreases requests.len(),
{
    if requests.len() > 0 {
        let front = requests.drop_last();
        assert forall|i: int| 0 <= i < front.len() implies !selects(#[trigger] front[i], a) by {
            assert(front[i] == requests[i]);
        }
        lemma_unselected_cycle_kept(s, front, a);
        assert(!selects(requests[requests.len() - 1], a));
    }
}

/// Leaving a non-empty cycle for another one, carrying out any requests
/// that do not select it, and selecting it again finds it as it was left:
/// it still exists (so selecting it does not create it), with the same
/// workspaces and the same position, and the next jump continues from there.
pub proof fn lemma_return_to_cycle(
    s: CyclesState,
    leave: Request,
    requests: Seq<Request>,
    back: Request,
)
    requires
        s.0.dom().contains(s.2),
        s.1.dom().contains(s.2),
        s.0[s.2].len() > 0,
        leave is SelectCycle,
        !selects(leave, s.2),
        forall|i: int| 0 <= i < requests.len() ==> !selects(#[trigger] requests[i], s.2),
        selects(back, s.2),
    ensures
        ({
            let a = s.2;
            let mid = run_requests(request_effect(s, leave), requests);
            let t = request_effect(mid, back);
            &&& mid.0.dom().contains(a)
            &&& t.2 == a
            &&& t.0[a] == s.0[a]
            &&& t.1[a] == s.1[a]
            &&& s.0[a].len() >= 2 ==> request_effect(t, Request::Next).1[a] == next_position(
                s.1[a],
                s.0[a].len(),
            )
        }),
{
    let a = s.2;
    let s1 = request_effect(s, leave);
    lemma_unselected_cycle_kept(s1, requests, a);
}

/// Carries out `request` on `cycles` and gives the answer. A status request
/// is answered with `status_json`, the dump of the state that the caller
/// renders; every other request leaves it unused.
pub fn handle_request(request: Request, cycles: &mut Cycles, status_json: String) -> (response:
    Response)
    requires
        old(cycles).wf(),
    ensures
        final(cycles).wf(),
        final(cycles).state() == request_effect(old(cycles).state(), request),
        ({
            let m = old(cycles).cycle_map();
            let a = old(cycles).active();
            let ws = m[a];
            let p = old(cycles).positions();
            match request {
                Request::Next => {
                    &&& final(cycles).cycle_map() == m
                    &&& final(cycles).active() == a
                    &&& if ws.len() < 2 {
                        &&& final(cycles).positions() == p
                        &&& response matches Response::NextWorkspace { workspace }
                        &&& workspace@ == "back_and_forth"@
                    } else {
                        &&& final(cycles).positions() == p.insert(a, next_position(p[a], ws.len()))
                        &&& response matches Response::NextWorkspace { workspace }
                        &&& ws.contains(workspace@)
                        &&& rank(ws, workspace@) == next_position(p[a], ws.len())
                    }
                },
                Request::Toggle { workspace } => {
                    &&& final(cycles).cycle_map() == m.insert(a, toggled(ws, workspace@))
                    &&& final(cycles).active() == a
                    &&& final(cycles).positions() == p
                    &&& response == (if ws.contains(workspace@) {
                        Response::Toggled { action: ToggleAction::Removed }
                    } else {
                        Response::Toggled { action: ToggleAction::Added }
                    })
                },
                Request::ListCycles => {
                    &&& *final(cycles) == *old(cycles)
                    &&& response matches Response::Cycles { names }
                    &&& ascending(texts(names@))
                    &&& texts(names@).to_set() == m.dom()
                },
                Request::SelectCycle { name } => {
                    &&& final(cycles).cycle_map() == selected(m, a, name@)
                    &&& final(cycles).active() == name@
                    &&& final(cycles).positions() == selected_positions(p, m, a, name@)
                    &&& response == (if m.dom().contains(name@) {
                        Response::CycleSelected { action: SelectAction::Selected }
                    } else {
                        Response::CycleSelected { action: SelectAction::Created }
                    })
                },
                Request::Status => {
                    &&& *final(cycles) == *old(cycles)
                    &&& response == Response::Status { json: status_json }
                },
            }
        }),
{
    match request {
        Request::Next => {
            let workspace = match cycles.next() {
                Some(w) => w,
                None => String::from_str("back_and_forth"),
            };
            Response::NextWorkspace { workspace }
        },
        Request::Toggle { workspace } => {
            let added = cycles.toggle(workspace);
            let action = if added {
                ToggleAction::Added
            } else {
                ToggleAction::Removed
            };
            Response::Toggled { action }
        },
        Request::ListCycles => {
            let names = cycles.list_cycles();
            Response::Cycles { names }
        },
        Request::SelectCycle { name } => {
            let created = cycles.select_cycle(name);
            let action = if created {
                SelectAction::Created
            } else {
                SelectAction::Selected
            };
            Response::CycleSelected { action }
        },
        Request::Status => Response::Status { json: status_json },
    }
}

} // verus!
