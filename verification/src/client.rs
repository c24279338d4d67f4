//! What a client knows of the game, and what a message of the server changes in it.
use crate::codec::decode_server_msg;
use crate::float64::Float64;
use crate::geometry::{enclose, Aabb};
use crate::protocol::{
    EntryView, LeaderboardEntryData, PlayerId, PlayerStateData, PlayerStateView, Position,
    RingView, ServerMsg, ServerMsgView, TerritoryRingData,
};
use crate::text::{color_text, push_decimal};
use crate::wire::DecodeError;
use vstd::prelude::*;

verus! {

// ---------------------------------------------------------------------------------------------
// Outlines
// ---------------------------------------------------------------------------------------------

/// An outline of a territory, with the box around it and its color as text.
pub struct TerritoryRing {
    pub color: [u8; 3],
    pub color_str: String,
    pub sprite_id: u32,
    pub points: Vec<Position>,
    pub bounds: Aabb,
}

/// The contents of a [`TerritoryRing`].
#[verifier::ext_equal]
pub struct TerritoryRingView {
    pub color: [u8; 3],
    pub color_str: Seq<char>,
    pub sprite_id: u32,
    pub points: Seq<Position>,
    pub bounds: Aabb,
}

impl View for TerritoryRing {
    type V = TerritoryRingView;

    open spec fn view(&self) -> TerritoryRingView {
        TerritoryRingView {
            color: self.color,
            color_str: self.color_str@,
            sprite_id: self.sprite_id,
            points: self.points@,
            bounds: self.bounds,
        }
    }
}

/// An outline as it was received.
pub open spec fn received(d: RingView) -> TerritoryRingView {
    TerritoryRingView {
        color: d.color,
        color_str: crate::text::color_between("rgba("@, d.color, ",0.35)"@),
        sprite_id: d.sprite_id,
        points: d.points,
        bounds: crate::geometry::enclosing(d.points),
    }
}

impl TerritoryRing {
    /// An outline as it was received.
    pub fn from_data(d: &TerritoryRingData) -> (r: TerritoryRing)
        ensures
            r@ == received(d@),
    {
        TerritoryRing {
            color: d.color,
            color_str: color_text("rgba(", d.color, ",0.35)"),
            sprite_id: d.sprite_id,
            bounds: enclose(&d.points),
            points: d.points.clone(),
        }
    }
}

// ---------------------------------------------------------------------------------------------
// Players
// ---------------------------------------------------------------------------------------------

/// A player as a client sees it.
pub struct RemotePlayer {
    pub id: PlayerId,
    pub position: Position,
    pub angle: Float64,
    pub color: [u8; 3],
    pub color_fill: String,
    pub color_trail: String,
    pub trail: Vec<Position>,
    /// When the server told of the player, in milliseconds.
    pub server_time: Float64,
    pub sprite_id: u32,
    pub has_crown: bool,
}

/// The contents of a [`RemotePlayer`].
#[verifier::ext_equal]
pub struct RemotePlayerView {
    pub id: PlayerId,
    pub position: Position,
    pub angle: Float64,
    pub color: [u8; 3],
    pub color_fill: Seq<char>,
    pub color_trail: Seq<char>,
    pub trail: Seq<Position>,
    pub server_time: Float64,
    pub sprite_id: u32,
    pub has_crown: bool,
}

impl View for RemotePlayer {
    type V = RemotePlayerView;

    open spec fn view(&self) -> RemotePlayerView {
        RemotePlayerView {
            id: self.id,
            position: self.position,
            angle: self.angle,
            color: self.color,
            color_fill: self.color_fill@,
            color_trail: self.color_trail@,
            trail: self.trail@,
            server_time: self.server_time,
            sprite_id: self.sprite_id,
            has_crown: self.has_crown,
        }
    }
}

/// The color in which a player is filled.
pub open spec fn fill_color(color: [u8; 3]) -> Seq<char> {
    crate::text::color_between("rgb("@, color, ")"@)
}

/// The color in which a trail is drawn.
pub open spec fn trail_color(color: [u8; 3]) -> Seq<char> {
    crate::text::color_between("rgba("@, color, ",0.8)"@)
}

/// A player of which nothing but the place is known.
pub open spec fn sighted(
    id: PlayerId,
    position: Position,
    angle: Float64,
    color: [u8; 3],
    sprite_id: u32,
    now: Float64,
) -> RemotePlayerView {
    RemotePlayerView {
        id,
        position,
        angle,
        color,
        color_fill: fill_color(color),
        color_trail: trail_color(color),
        trail: Seq::empty(),
        server_time: now,
        sprite_id,
        has_crown: false,
    }
}

impl RemotePlayerView {
    /// The player as the server has told of it; texts of the color are kept while it is the same.
    pub open spec fn told(self, ps: PlayerStateView, now: Float64) -> RemotePlayerView {
        RemotePlayerView {
            position: ps.position,
            angle: ps.angle,
            trail: ps.trail,
            server_time: now,
            sprite_id: ps.sprite_id,
            has_crown: ps.has_crown,
            color: ps.color,
            color_fill: if self.color == ps.color {
                self.color_fill
            } else {
                fill_color(ps.color)
            },
            color_trail: if self.color == ps.color {
                self.color_trail
            } else {
                trail_color(ps.color)
            },
            ..self
        }
    }
}

/// Whether two colors are the same.
pub fn same_color(a: [u8; 3], b: [u8; 3]) -> (r: bool)
    ensures
        r == (a == b),
{
    let r = a[0] == b[0] && a[1] == b[1] && a[2] == b[2];
    proof {
        if r {
            assert(a@ =~= b@);
            assert(a =~= b);
        }
    }
    r
}

impl RemotePlayer {
    /// A player of which nothing but the place is known.
    pub fn new(
        id: PlayerId,
        position: Position,
        angle: Float64,
        color: [u8; 3],
        sprite_id: u32,
        now: Float64,
    ) -> (r: RemotePlayer)
        ensures
            r@ == sighted(id, position, angle, color, sprite_id, now),
    {
        RemotePlayer {
            id,
            position,
            angle,
            color,
            color_fill: color_text("rgb(", color, ")"),
            color_trail: color_text("rgba(", color, ",0.8)"),
            trail: Vec::new(),
            server_time: now,
            sprite_id,
            has_crown: false,
        }
    }

    /// Take in what the server tells of the player.
    pub fn tell(&mut self, ps: &PlayerStateData, now: Float64)
        ensures
            final(self)@ == old(self)@.told(ps@, now),
    {
        self.position = ps.position;
        self.angle = ps.angle;
        self.trail = ps.trail.clone();
        self.server_time = now;
        self.sprite_id = ps.sprite_id;
        self.has_crown = ps.has_crown;
        if !same_color(self.color, ps.color) {
            self.color = ps.color;
            self.color_fill = color_text("rgb(", ps.color, ")");
            self.color_trail = color_text("rgba(", ps.color, ",0.8)");
        }
    }
}

/// The contents of a list of players.
pub open spec fn remote_views(players: Seq<RemotePlayer>) -> Seq<RemotePlayerView> {
    players.map_values(|p: RemotePlayer| p@)
}

/// Where a player stands in a list of players.
pub open spec fn place_of(players: Seq<RemotePlayerView>, id: PlayerId) -> Option<int>
    decreases players.len(),
{
    if players.len() == 0 {
        None
    } else if players.last().id == id {
        Some(players.len() - 1)
    } else {
        place_of(players.drop_last(), id)
    }
}

/// The players after one was told of: who is not known yet is entered.
pub open spec fn one_told(
    players: Seq<RemotePlayerView>,
    ps: PlayerStateView,
    now: Float64,
) -> Seq<RemotePlayerView> {
    match place_of(players, ps.id) {
        Some(i) => players.update(i, players[i].told(ps, now)),
        None => players.push(
            sighted(ps.id, ps.position, ps.angle, ps.color, ps.sprite_id, now).told(ps, now),
        ),
    }
}

/// The players after some were told of.
pub open spec fn all_told(
    players: Seq<RemotePlayerView>,
    told: Seq<PlayerStateView>,
    now: Float64,
) -> Seq<RemotePlayerView>
    decreases told.len(),
{
    if told.len() == 0 {
        players
    } else {
        one_told(all_told(players, told.drop_last(), now), told.last(), now)
    }
}

/// Whether some player states hold one of a player.
pub open spec fn mentions(told: Seq<PlayerStateView>, id: PlayerId) -> bool {
    exists|i: int| 0 <= i < told.len() && (#[trigger] told[i]).id == id
}

/// The players who were told of, and one more.
pub open spec fn still_seen(
    players: Seq<RemotePlayerView>,
    told: Seq<PlayerStateView>,
    me: PlayerId,
) -> Seq<RemotePlayerView>
    decreases players.len(),
{
    if players.len() == 0 {
        players
    } else {
        let earlier = still_seen(players.drop_last(), told, me);
        if mentions(told, players.last().id) || players.last().id == me {
            earlier.push(players.last())
        } else {
            earlier
        }
    }
}

/// Whether some player states hold one of a player.
fn is_told_of(told: &Vec<PlayerStateData>, id: PlayerId) -> (r: bool)
    ensures
        r == mentions(crate::protocol::player_views(told@), id),
{
    let ghost views = crate::protocol::player_views(told@);
    let mut i: usize = 0;
    while i < told.len()
        invariant
            i <= told@.len(),
            views == crate::protocol::player_views(told@),
            forall|j: int| 0 <= j < i ==> (#[trigger] views[j]).id != id,
        decreases told@.len() - i,
    {
        proof {
            assert(views[i as int] == told@[i as int]@);
        }
        if told[i].id == id {
            return true;
        }
        i += 1;
    }
    false
}

// ---------------------------------------------------------------------------------------------
// Leaderboards
// ---------------------------------------------------------------------------------------------

/// The text of the first `n` lines of a leaderboard.
pub open spec fn board_lines(lines: Seq<EntryView>, n: int) -> Seq<char>
    decreases n,
{
    if n <= 0 {
        Seq::empty()
    } else {
        let e = lines[n - 1];
        board_lines(lines, n - 1) + crate::text::decimal(n as nat) + ". "@ + (if e.name.len()
            == 0 {
            "???"@
        } else {
            e.name
        }) + " ("@ + crate::text::decimal(e.value as nat) + ")\n"@
    }
}

/// The text of a leaderboard.
pub open spec fn board_text(title: Seq<char>, lines: Seq<EntryView>) -> Seq<char> {
    title + board_lines(lines, lines.len() as int) + if lines.len() == 0 {
        "  ---\n"@
    } else {
        Seq::empty()
    }
}

/// Write a leaderboard.
pub fn write_board(title: &str, lines: &Vec<LeaderboardEntryData>) -> (r: String)
    ensures
        r@ == board_text(title@, crate::protocol::entry_views(lines@)),
{
    let ghost all = crate::protocol::entry_views(lines@);
    let mut text = String::from_str(title);
    let mut i: usize = 0;
    proof {
        assert(text@ =~= title@ + board_lines(all, 0));
    }
    while i < lines.len()
        invariant
            i <= lines@.len(),
            all == crate::protocol::entry_views(lines@),
            text@ == title@ + board_lines(all, i as int),
        decreases lines@.len() - i,
    {
        let e = &lines[i];
        proof {
            assert(all[i as int] == e@);
        }
        let ghost before = text@;
        push_decimal(&mut text, i as u64 + 1);
        text.append(". ");
        if e.name.as_str().unicode_len() == 0 {
            text.append("???");
        } else {
            text.append(e.name.as_str());
        }
        text.append(" (");
        push_decimal(&mut text, e.value as u64);
        text.append(")\n");
        proof {
            assert(text@ =~= title@ + board_lines(all, i + 1));
        }
        i += 1;
    }
    if lines.len() == 0 {
        text.append("  ---\n");
    }
    proof {
        assert(text@ =~= board_text(title@, all));
    }
    text
}

/// The texts of the two leaderboards.
pub struct BoardTexts {
    pub area: String,
    pub kills: String,
}

// ---------------------------------------------------------------------------------------------
// The state of a client
// ---------------------------------------------------------------------------------------------

/// What a client knows of the game and of its user.
pub struct ClientState {
    pub player_id: Option<PlayerId>,
    pub alive: bool,
    pub connected: bool,
    pub players: Vec<RemotePlayer>,
    pub territory: Vec<TerritoryRing>,
    pub width: Float64,
    pub height: Float64,
    pub last_tick_time: Float64,
    pub zoom: Float64,
    pub touching: bool,
    pub mouse_down: bool,
    /// The distance of two fingers when they began to pinch.
    pub pinch_dist: Option<Float64>,
    /// The zoom when they began to pinch.
    pub pinch_zoom_start: Float64,
    pub my_sprite_id: u32,
    pub sprite_count: u32,
    pub my_name: String,
}

/// The contents of a [`ClientState`].
#[verifier::ext_equal]
pub struct ClientView {
    pub player_id: Option<PlayerId>,
    pub alive: bool,
    pub connected: bool,
    pub players: Seq<RemotePlayerView>,
    pub territory: Seq<TerritoryRingView>,
    pub width: Float64,
    pub height: Float64,
    pub last_tick_time: Float64,
    pub zoom: Float64,
    pub touching: bool,
    pub mouse_down: bool,
    pub pinch_dist: Option<Float64>,
    pub pinch_zoom_start: Float64,
    pub my_sprite_id: u32,
    pub sprite_count: u32,
    pub my_name: Seq<char>,
}

impl View for ClientState {
    type V = ClientView;

    open spec fn view(&self) -> ClientView {
        ClientView {
            player_id: self.player_id,
            alive: self.alive,
            connected: self.connected,
            players: remote_views(self.players@),
            territory: self.territory@.map_values(|r: TerritoryRing| r@),
            width: self.width,
            height: self.height,
            last_tick_time: self.last_tick_time,
            zoom: self.zoom,
            touching: self.touching,
            mouse_down: self.mouse_down,
            pinch_dist: self.pinch_dist,
            pinch_zoom_start: self.pinch_zoom_start,
            my_sprite_id: self.my_sprite_id,
            sprite_count: self.sprite_count,
            my_name: self.my_name@,
        }
    }
}

impl ClientView {
    /// After a message of the server.
    pub open spec fn after(self, msg: ServerMsgView, now: Float64) -> ClientView {
        match msg {
            ServerMsgView::Welcome { player_id, position, angle, color } => ClientView {
                player_id: Some(player_id),
                alive: true,
                territory: Seq::empty(),
                players: seq![
                    sighted(player_id, position, angle, color, self.my_sprite_id, now),
                ],
                ..self
            },
            ServerMsgView::Tick { players, board_radius } => ClientView {
                last_tick_time: now,
                players: match self.player_id {
                    Some(me) => still_seen(all_told(self.players, players, now), players, me),
                    None => all_told(self.players, players, now),
                },
                ..self
            },
            ServerMsgView::TerritorySnapshot(rings) => ClientView {
                territory: rings.map_values(|d: RingView| received(d)),
                ..self
            },
            ServerMsgView::PlayerKilled { player_id, killer_id } => ClientView {
                alive: self.alive && self.player_id != Some(player_id),
                players: match place_of(self.players, player_id) {
                    Some(i) => self.players.remove(i),
                    None => self.players,
                },
                ..self
            },
            ServerMsgView::Pong(_) => self,
            ServerMsgView::Leaderboard(_) => self,
        }
    }
}

impl ClientState {
    /// A client that is not connected yet.
    pub fn new(width: Float64, height: Float64, my_name: String) -> (r: ClientState)
        ensures
            r@ == (ClientView {
                player_id: None,
                alive: false,
                connected: false,
                players: Seq::empty(),
                territory: Seq::empty(),
                width,
                height,
                last_tick_time: Float64 { bits: crate::geometry::ZERO },
                zoom: Float64 { bits: crate::geometry::ONE },
                touching: false,
                mouse_down: false,
                pinch_dist: None,
                pinch_zoom_start: Float64 { bits: crate::geometry::ONE },
                my_sprite_id: 0,
                sprite_count: 0,
                my_name: my_name@,
            }),
    {
        let r = ClientState {
            player_id: None,
            alive: false,
            connected: false,
            players: Vec::new(),
            territory: Vec::new(),
            width,
            height,
            last_tick_time: Float64 { bits: crate::geometry::ZERO },
            zoom: Float64 { bits: crate::geometry::ONE },
            touching: false,
            mouse_down: false,
            pinch_dist: None,
            pinch_zoom_start: Float64 { bits: crate::geometry::ONE },
            my_sprite_id: 0,
            sprite_count: 0,
            my_name,
        };
        proof {
            assert(r@.players =~= Seq::empty());
            assert(r@.territory =~= Seq::empty());
        }
        r
    }

    /// Where a player stands in the list of players.
    pub fn find(&self, id: PlayerId) -> (r: Option<usize>)
        ensures
            match r {
                Some(i) => place_of(self@.players, id) == Some(i as int) && i < self.players@.len(),
                None => place_of(self@.players, id) is None,
            },
    {
        let ghost all = self@.players;
        let mut i: usize = self.players.len();
        proof {
            assert(all.take(i as int) =~= all);
        }
        while i > 0
            invariant
                i <= self.players@.len(),
                all == self@.players,
                place_of(all.take(i as int), id) == place_of(all, id),
            decreases i,
        {
            proof {
                assert(all.take(i as int).drop_last() =~= all.take(i - 1));
                assert(all.take(i as int).last() == self.players@[i - 1]@);
            }
            i -= 1;
            if self.players[i].id == id {
                return Some(i);
            }
        }
        None
    }

    /// Take in what the server tells of one player.
    fn tell_of(&mut self, ps: &PlayerStateData, now: Float64)
        ensures
            final(self)@ == (ClientView {
                players: one_told(old(self)@.players, ps@, now),
                ..old(self)@
            }),
    {
        match self.find(ps.id) {
            Some(i) => {
                proof {
                    assert(self@.players[i as int] == self.players@[i as int]@);
                }
                self.players[i].tell(ps, now);
                proof {
                    assert(self@.players =~= one_told(old(self)@.players, ps@, now));
                }
            },
            None => {
                let mut p = RemotePlayer::new(
                    ps.id,
                    ps.position,
                    ps.angle,
                    ps.color,
                    ps.sprite_id,
                    now,
                );
                p.tell(ps, now);
                self.players.push(p);
                proof {
                    assert(self@.players =~= one_told(old(self)@.players, ps@, now));
                }
            },
        }
    }

    /// Take in what the server tells of some players.
    fn tell_of_all(&mut self, told: &Vec<PlayerStateData>, now: Float64)
        ensures
            final(self)@ == (ClientView {
                players: all_told(
                    old(self)@.players,
                    crate::protocol::player_views(told@),
                    now,
                ),
                ..old(self)@
            }),
    {
        let ghost all = crate::protocol::player_views(told@);
        let mut i: usize = 0;
        while i < told.len()
            invariant
                i <= told@.len(),
                all == crate::protocol::player_views(told@),
                self@ == (ClientView {
                    players: all_told(old(self)@.players, all.take(i as int), now),
                    ..old(self)@
                }),
            decreases told@.len() - i,
        {
            proof {
                assert(all.take(i + 1).drop_last() =~= all.take(i as int));
                assert(all.take(i + 1).last() == told@[i as int]@);
            }
            self.tell_of(&told[i], now);
            i += 1;
        }
        proof {
            assert(all.take(i as int) =~= all);
        }
    }

    /// Forget the players who were not told of, but for one.
    fn forget_unseen(&mut self, told: &Vec<PlayerStateData>, me: PlayerId)
        ensures
            final(self)@ == (ClientView {
                players: still_seen(
                    old(self)@.players,
                    crate::protocol::player_views(told@),
                    me,
                ),
                ..old(self)@
            }),
    {
        let ghost all = self@.players;
        let ghost views = crate::protocol::player_views(told@);
        let ghost mut kept = Seq::<RemotePlayerView>::empty();
        let mut i: usize = self.players.len();
        proof {
            assert(all.take(i as int) =~= all);
            assert(self@.players =~= all.take(i as int) + kept);
            assert(still_seen(all, views, me) =~= still_seen(all.take(i as int), views, me) + kept);
        }
        while i > 0
            invariant
                i <= all.len(),
                views == crate::protocol::player_views(told@),
                self@ == (ClientView { players: all.take(i as int) + kept, ..old(self)@ }),
                still_seen(all, views, me) == still_seen(all.take(i as int), views, me) + kept,
            decreases i,
        {
            let ghost before = self@.players;
            proof {
                assert(self.players@.len() == before.len());
                assert(all.take(i as int).drop_last() =~= all.take(i - 1));
                assert(before[i - 1] == self.players@[i - 1]@);
                assert(all.take(i as int).last() == before[i - 1]);
            }
            i -= 1;
            let id = self.players[i].id;
            let ghost p = before[i as int];
            if is_told_of(told, id) || id == me {
                proof {
                    let longer = seq![p] + kept;
                    assert(all.take(i + 1) + kept =~= all.take(i as int) + longer);
                    assert(still_seen(all.take(i as int), views, me).push(p) + kept =~= still_seen(
                        all.take(i as int),
                        views,
                        me,
                    ) + longer);
                    kept = longer;
                }
            } else {
                let _ = self.players.remove(i);
                proof {
                    assert(self@.players =~= before.remove(i as int));
                    assert(self@.players =~= all.take(i as int) + kept);
                }
            }
        }
        proof {
            assert(self@.players =~= still_seen(all, views, me)) by {
                assert(all.take(0) =~= Seq::empty());
            }
        }
    }

    /// Take in the outlines of territories.
    fn take_rings(&mut self, rings: &Vec<TerritoryRingData>)
        ensures
            final(self)@ == (ClientView {
                territory: crate::protocol::ring_views(rings@).map_values(
                    |d: RingView| received(d),
                ),
                ..old(self)@
            }),
    {
        let mut territory: Vec<TerritoryRing> = Vec::new();
        let mut i: usize = 0;
        while i < rings.len()
            invariant
                i <= rings@.len(),
                territory@.len() == i,
                forall|j: int|
                    0 <= j < i ==> (#[trigger] territory@[j])@ == received(rings@[j]@),
            decreases rings@.len() - i,
        {
            territory.push(TerritoryRing::from_data(&rings[i]));
            i += 1;
        }
        self.territory = territory;
        proof {
            assert(self@.territory =~= crate::protocol::ring_views(rings@).map_values(
                |d: RingView| received(d),
            ));
        }
    }

    /// Take in a message of the server; the texts of leaderboards, where it brings any.
    pub fn receive(&mut self, msg: ServerMsg, now: Float64) -> (r: Option<BoardTexts>)
        ensures
            final(self)@ == old(self)@.after(msg@, now),
            match msg@ {
                ServerMsgView::Leaderboard(board) => r matches Some(texts) && texts.area@
                    == board_text("<b>Top Area</b>\n"@, board.by_area) && texts.kills@
                    == board_text("<b>Top Kills</b>\n"@, board.by_kills),
                _ => r is None,
            },
    {
        match msg {
            ServerMsg::Welcome { player_id, position, angle, color } => {
                self.player_id = Some(player_id);
                self.alive = true;
                self.territory = Vec::new();
                let me = RemotePlayer::new(
                    player_id,
                    position,
                    angle,
                    color,
                    self.my_sprite_id,
                    now,
                );
                self.players = vec![me];
                proof {
                    let after = old(self)@.after(msg@, now);
                    assert(self@.territory =~= after.territory);
                    assert(self@.players =~= after.players);
                }
                None
            },
            ServerMsg::Tick { players, board_radius: _ } => {
                self.last_tick_time = now;
                self.tell_of_all(&players, now);
                if let Some(me) = self.player_id {
                    self.forget_unseen(&players, me);
                }
                None
            },
            ServerMsg::TerritorySnapshot(rings) => {
                self.take_rings(&rings);
                None
            },
            ServerMsg::PlayerKilled { player_id, killer_id: _ } => {
                if let Some(me) = self.player_id {
                    if me == player_id {
                        self.alive = false;
                    }
                }
                if let Some(i) = self.find(player_id) {
                    let _ = self.players.remove(i);
                    proof {
                        assert(self@.players =~= old(self)@.players.remove(i as int));
                    }
                }
                None
            },
            ServerMsg::Pong(_) => None,
            ServerMsg::Leaderboard(board) => Some(
                BoardTexts {
                    area: write_board("<b>Top Area</b>\n", &board.by_area),
                    kills: write_board("<b>Top Kills</b>\n", &board.by_kills),
                },
            ),
        }
    }

    /// Take in the bytes of a message of the server; what is not one changes nothing.
    pub fn handle_msg(&mut self, bytes: &[u8], now: Float64) -> (r: Result<
        Option<BoardTexts>,
        DecodeError,
    >)
        ensures
            match crate::codec::server_message_in(bytes@) {
                Ok(msg) => final(self)@ == old(self)@.after(msg, now) && r is Ok && (match msg {
                    ServerMsgView::Leaderboard(board) => r matches Ok(Some(texts)) && texts.area@
                        == board_text("<b>Top Area</b>\n"@, board.by_area) && texts.kills@
                        == board_text("<b>Top Kills</b>\n"@, board.by_kills),
                    _ => r matches Ok(None),
                }),
                Err(e) => final(self)@ == old(self)@ && (r matches Err(f) && f == e),
            },
    {
        match decode_server_msg(bytes) {
            Ok(msg) => Ok(self.receive(msg, now)),
            Err(e) => Err(e),
        }
    }
}

// ---------------------------------------------------------------------------------------------
// What a client can rely on
// ---------------------------------------------------------------------------------------------

/// Whether no player is in a list twice.
pub open spec fn distinct(players: Seq<RemotePlayerView>) -> bool {
    forall|i: int, j: int|
        0 <= i < j < players.len() ==> (#[trigger] players[i]).id != (#[trigger] players[j]).id
}

/// What `place_of` finds is a player of that id, and it finds one where there is one.
pub proof fn lemma_place_of(players: Seq<RemotePlayerView>, id: PlayerId)
    ensures
        place_of(players, id) matches Some(i) ==> 0 <= i < players.len() && players[i].id == id,
        (exists|i: int| 0 <= i < players.len() && (#[trigger] players[i]).id == id) ==> place_of(
            players,
            id,
        ) is Some,
    decreases players.len(),
{
    if players.len() > 0 {
        let shorter = players.drop_last();
        lemma_place_of(shorter, id);
        if exists|i: int| 0 <= i < players.len() && (#[trigger] players[i]).id == id {
            let i = choose|i: int| 0 <= i < players.len() && (#[trigger] players[i]).id == id;
            if i < shorter.len() {
                assert(shorter[i].id == id);
            }
        }
    }
}

proof fn lemma_one_told(players: Seq<RemotePlayerView>, ps: PlayerStateView, now: Float64)
    requires
        distinct(players),
    ensures
        distinct(one_told(players, ps, now)),
        place_of(one_told(players, ps, now), ps.id) is Some,
        forall|id: PlayerId| #[trigger]
            place_of(players, id) is Some ==> place_of(one_told(players, ps, now), id) is Some,
{
    let after = one_told(players, ps, now);
    lemma_place_of(players, ps.id);
    assert forall|i: int, j: int| 0 <= i < j < after.len() implies (#[trigger] after[i]).id != (
    #[trigger] after[j]).id by {
        if j < players.len() {
            assert(players[i].id != players[j].id);
        }
    }
    match place_of(players, ps.id) {
        Some(i) => {
            assert(after[i].id == ps.id);
        },
        None => {
            assert(after[players.len() as int].id == ps.id);
        },
    }
    lemma_place_of(after, ps.id);
    assert forall|id: PlayerId| #[trigger] place_of(players, id) is Some implies place_of(
        after,
        id,
    ) is Some by {
        lemma_place_of(players, id);
        lemma_place_of(after, id);
        let k = place_of(players, id).unwrap();
        assert(after[k].id == id);
    }
}

/// Who is told of is known, and nobody twice.
pub proof fn lemma_all_told(
    players: Seq<RemotePlayerView>,
    told: Seq<PlayerStateView>,
    now: Float64,
)
    requires
        distinct(players),
    ensures
        distinct(all_told(players, told, now)),
        forall|id: PlayerId| #[trigger]
            mentions(told, id) ==> place_of(all_told(players, told, now), id) is Some,
    decreases told.len(),
{
    if told.len() > 0 {
        let shorter = told.drop_last();
        lemma_all_told(players, shorter, now);
        let earlier = all_told(players, shorter, now);
        lemma_one_told(earlier, told.last(), now);
        assert forall|id: PlayerId| #[trigger] mentions(told, id) implies place_of(
            all_told(players, told, now),
            id,
        ) is Some by {
            let k = choose|k: int| 0 <= k < told.len() && (#[trigger] told[k]).id == id;
            if k < shorter.len() {
                assert(shorter[k].id == id);
                assert(mentions(shorter, id));
                assert(place_of(earlier, id) is Some);
            }
        }
    }
}

/// Who is told of stays, and nobody else but one.
pub proof fn lemma_still_seen(
    players: Seq<RemotePlayerView>,
    told: Seq<PlayerStateView>,
    me: PlayerId,
)
    requires
        distinct(players),
    ensures
        distinct(still_seen(players, told, me)),
        forall|i: int|
            0 <= i < still_seen(players, told, me).len() ==> {
                let p = #[trigger] still_seen(players, told, me)[i];
                (mentions(told, p.id) || p.id == me) && players.contains(p)
            },
        forall|i: int|
            0 <= i < players.len() && mentions(told, (#[trigger] players[i]).id) ==> still_seen(
                players,
                told,
                me,
            ).contains(players[i]),
    decreases players.len(),
{
    let seen = still_seen(players, told, me);
    if players.len() > 0 {
        let shorter = players.drop_last();
        let last = players[players.len() - 1];
        assert forall|i: int, j: int| 0 <= i < j < shorter.len() implies (#[trigger] shorter[i]).id
            != (#[trigger] shorter[j]).id by {
            assert(players[i].id != players[j].id);
        }
        lemma_still_seen(shorter, told, me);
        let earlier = still_seen(shorter, told, me);
        assert forall|i: int| 0 <= i < seen.len() implies {
            let p = #[trigger] seen[i];
            (mentions(told, p.id) || p.id == me) && players.contains(p)
        } by {
            if i < earlier.len() {
                assert(seen[i] == earlier[i]);
                let k = choose|k: int| 0 <= k < shorter.len() && shorter[k] == earlier[i];
                assert(players[k] == seen[i]);
            } else {
                assert(players[players.len() - 1] == seen[i]);
            }
        }
        assert forall|i: int, j: int| 0 <= i < j < seen.len() implies (#[trigger] seen[i]).id != (
        #[trigger] seen[j]).id by {
            assert(seen[i] == earlier[i]);
            if j < earlier.len() {
                assert(earlier[i].id != earlier[j].id);
            } else {
                let k = choose|k: int| 0 <= k < shorter.len() && shorter[k] == earlier[i];
                assert(players[k].id != players[players.len() - 1].id);
            }
        }
        assert forall|i: int|
            0 <= i < players.len() && mentions(told, (#[trigger] players[i]).id) implies seen.contains(
            players[i],
        ) by {
            if i < shorter.len() {
                assert(shorter[i] == players[i]);
                assert(earlier.contains(shorter[i]));
                let k = choose|k: int| 0 <= k < earlier.len() && earlier[k] == players[i];
                assert(seen[k] == players[i]);
            } else {
                assert(seen[seen.len() - 1] == last);
            }
        }
    }
}

/// No message makes a client know a player twice.
pub proof fn lemma_players_stay_distinct(client: ClientView, msg: ServerMsgView, now: Float64)
    requires
        distinct(client.players),
    ensures
        distinct(client.after(msg, now).players),
{
    match msg {
        ServerMsgView::Tick { players, board_radius } => {
            lemma_all_told(client.players, players, now);
            if let Some(me) = client.player_id {
                lemma_still_seen(all_told(client.players, players, now), players, me);
            }
        },
        ServerMsgView::PlayerKilled { player_id, killer_id } => {
            lemma_place_of(client.players, player_id);
            if let Some(i) = place_of(client.players, player_id) {
                let after = client.players.remove(i);
                assert forall|j: int, k: int| 0 <= j < k < after.len() implies (
                #[trigger] after[j]).id != (#[trigger] after[k]).id by {
                    let a = if j < i {
                        j
                    } else {
                        j + 1
                    };
                    let b = if k < i {
                        k
                    } else {
                        k + 1
                    };
                    assert(client.players[a].id != client.players[b].id);
                }
            }
        },
        _ => {},
    }
}

/// After a tick a client knows whom the tick told of, and besides them at most its own player.
pub proof fn lemma_tick_tells_whom_to_know(
    client: ClientView,
    told: Seq<PlayerStateView>,
    board_radius: Float64,
    now: Float64,
    me: PlayerId,
    id: PlayerId,
)
    requires
        distinct(client.players),
        client.player_id == Some(me),
    ensures
        ({
            let players = client.after(
                ServerMsgView::Tick { players: told, board_radius },
                now,
            ).players;
            &&& mentions(told, id) ==> place_of(players, id) is Some
            &&& place_of(players, id) is Some ==> mentions(told, id) || id == me
        }),
{
    let known = all_told(client.players, told, now);
    let players = still_seen(known, told, me);
    lemma_all_told(client.players, told, now);
    lemma_still_seen(known, told, me);
    lemma_place_of(players, id);
    if mentions(told, id) {
        lemma_place_of(known, id);
        let i = place_of(known, id).unwrap();
        assert(players.contains(known[i]));
        let k = choose|k: int| 0 <= k < players.len() && players[k] == known[i];
        assert(players[k].id == id);
    }
    if let Some(i) = place_of(players, id) {
        assert(players[i].id == id);
    }
}

/// A client whose player was killed is no longer alive, and does not know the player any more.
pub proof fn lemma_killed_is_forgotten(
    client: ClientView,
    id: PlayerId,
    killer_id: Option<PlayerId>,
    now: Float64,
)
    requires
        distinct(client.players),
    ensures
        ({
            let after = client.after(
                ServerMsgView::PlayerKilled { player_id: id, killer_id },
                now,
            );
            &&& place_of(after.players, id) is None
            &&& client.player_id == Some(id) ==> !after.alive
            &&& client.player_id != Some(id) ==> after.alive == client.alive
        }),
{
    let after = client.after(ServerMsgView::PlayerKilled { player_id: id, killer_id }, now);
    lemma_place_of(client.players, id);
    lemma_place_of(after.players, id);
    if let Some(j) = place_of(after.players, id) {
        let i = place_of(client.players, id).unwrap();
        let k = if j < i {
            j
        } else {
            j + 1
        };
        assert(after.players[j] == client.players[k]);
        if k < i {
            assert(client.players[k].id != client.players[i].id);
        } else {
            assert(client.players[i].id != client.players[k].id);
        }
    }
}

// ---------------------------------------------------------------------------------------------
// Colors and their texts
// ---------------------------------------------------------------------------------------------

/// Whether the texts of a player's color are those of its color.
pub open spec fn well_colored(p: RemotePlayerView) -> bool {
    p.color_fill == fill_color(p.color) && p.color_trail == trail_color(p.color)
}

/// Whether an outline is as one that was received: its text is that of its color, and its box is
/// the one around its points.
pub open spec fn well_drawn(r: TerritoryRingView) -> bool {
    &&& r.color_str == crate::text::color_between("rgba("@, r.color, ",0.35)"@)
    &&& r.bounds == crate::geometry::enclosing(r.points)
}

/// Whether all texts and boxes that a client keeps are up to date, and it knows nobody twice.
pub open spec fn consistent(client: ClientView) -> bool {
    &&& distinct(client.players)
    &&& forall|i: int| 0 <= i < client.players.len() ==> well_colored(#[trigger] client.players[i])
    &&& forall|i: int|
        0 <= i < client.territory.len() ==> well_drawn(#[trigger] client.territory[i])
}

proof fn lemma_all_told_well_colored(
    players: Seq<RemotePlayerView>,
    told: Seq<PlayerStateView>,
    now: Float64,
)
    requires
        forall|i: int| 0 <= i < players.len() ==> well_colored(#[trigger] players[i]),
    ensures
        forall|i: int|
            0 <= i < all_told(players, told, now).len() ==> well_colored(
                #[trigger] all_told(players, told, now)[i],
            ),
    decreases told.len(),
{
    if told.len() > 0 {
        let earlier = all_told(players, told.drop_last(), now);
        let after = all_told(players, told, now);
        lemma_all_told_well_colored(players, told.drop_last(), now);
        lemma_place_of(earlier, told.last().id);
        assert forall|i: int| 0 <= i < after.len() implies well_colored(#[trigger] after[i]) by {
            match place_of(earlier, told.last().id) {
                Some(k) => {
                    assert(well_colored(earlier[i]));
                },
                None => {
                    if i < earlier.len() {
                        assert(well_colored(earlier[i]));
                    }
                },
            }
        }
    }
}

/// Every message of the server keeps the texts and boxes of a client up to date.
pub proof fn lemma_client_stays_consistent(client: ClientView, msg: ServerMsgView, now: Float64)
    requires
        consistent(client),
    ensures
        consistent(client.after(msg, now)),
{
    lemma_players_stay_distinct(client, msg, now);
    let after = client.after(msg, now);
    match msg {
        ServerMsgView::Tick { players, board_radius } => {
            let known = all_told(client.players, players, now);
            lemma_all_told(client.players, players, now);
            lemma_all_told_well_colored(client.players, players, now);
            if let Some(me) = client.player_id {
                lemma_still_seen(known, players, me);
                assert forall|i: int| 0 <= i < after.players.len() implies well_colored(
                    #[trigger] after.players[i],
                ) by {
                    assert(known.contains(after.players[i]));
                    let k = choose|k: int| 0 <= k < known.len() && known[k] == after.players[i];
                    assert(well_colored(known[k]));
                }
            }
        },
        ServerMsgView::PlayerKilled { player_id, killer_id } => {
            lemma_place_of(client.players, player_id);
            if let Some(k) = place_of(client.players, player_id) {
                assert forall|i: int| 0 <= i < after.players.len() implies well_colored(
                    #[trigger] after.players[i],
                ) by {
                    let m = if i < k {
                        i
                    } else {
                        i + 1
                    };
                    assert(well_colored(client.players[m]));
                }
            }
        },
        _ => {},
    }
}

/// A client after some messages, each with the time at which it came.
pub open spec fn after_all(client: ClientView, msgs: Seq<(ServerMsgView, Float64)>) -> ClientView
    decreases msgs.len(),
{
    if msgs.len() == 0 {
        client
    } else {
        after_all(client, msgs.drop_last()).after(msgs.last().0, msgs.last().1)
    }
}

/// Whatever messages reach a client that knew nobody and no territory, its texts and boxes are up
/// to date.
pub proof fn lemma_client_always_consistent(
    client: ClientView,
    msgs: Seq<(ServerMsgView, Float64)>,
)
    requires
        client.players.len() == 0,
        client.territory.len() == 0,
    ensures
        consistent(after_all(client, msgs)),
    decreases msgs.len(),
{
    if msgs.len() > 0 {
        lemma_client_always_consistent(client, msgs.drop_last());
        lemma_client_stays_consistent(
            after_all(client, msgs.drop_last()),
            msgs.last().0,
            msgs.last().1,
        );
    }
}

}
