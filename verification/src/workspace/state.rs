//! Workspace state: application instances, focus, mode and follow-up context.

use vstd::prelude::*;

verus! {

/// Time to live of a follow-up window, in seconds.
pub const FOLLOW_UP_TTL_SECS: u64 = 90;

/// Number of follow-up turns before the context expires.
pub const FOLLOW_UP_MAX_TURNS: usize = 3;

/// Whether an application instance is active or inactive.
#[derive(Debug, Clone, Copy, PartialEq, Eq, Structural)]
pub enum ApplicationStatus {
    Active,
    Inactive,
}

/// Current mode of the workspace.
#[derive(Debug, Clone, Copy, PartialEq, Eq, Structural)]
pub enum WorkspaceMode {
    Idle,
    FollowUpActive,
    AwaitingConfirmation,
}

/// A value kept in an instance's context.
#[derive(Debug, Clone)]
pub enum ContextValue {
    /// A string value.
    Text(String),
    /// Any other value, as JSON text.
    Json(String),
}

/// A context value over plain values.
pub ghost enum ContextValueView {
    Text(Seq<char>),
    Json(Seq<char>),
}

impl View for ContextValue {
    type V = ContextValueView;

    open spec fn view(&self) -> ContextValueView {
        match self {
            ContextValue::Text(s) => ContextValueView::Text(s@),
            ContextValue::Json(s) => ContextValueView::Json(s@),
        }
    }
}

/// One key of an instance's context and its value.
#[derive(Debug, Clone)]
pub struct ContextEntry {
    pub key: String,
    pub value: ContextValue,
}

/// A running instance of an application in the workspace.
#[derive(Debug, Clone)]
pub struct ApplicationInstance {
    pub instance_id: String,
    pub app_id: String,
    pub status: ApplicationStatus,
    pub context: Vec<ContextEntry>,
    pub mounted_tools: Vec<String>,
}

/// An instance over plain values.
pub ghost struct InstanceView {
    pub id: Seq<char>,
    pub app_id: Seq<char>,
    pub active: bool,
    pub context: Seq<(Seq<char>, ContextValueView)>,
    pub tools: Seq<Seq<char>>,
}

/// The views of a context's entries.
pub open spec fn context_view(c: Seq<ContextEntry>) -> Seq<(Seq<char>, ContextValueView)> {
    c.map_values(|e: ContextEntry| (e.key@, e.value@))
}

/// The views of a list of strings.
pub open spec fn strings_view(v: Seq<String>) -> Seq<Seq<char>> {
    v.map_values(|s: String| s@)
}

impl View for ApplicationInstance {
    type V = InstanceView;

    open spec fn view(&self) -> InstanceView {
        InstanceView {
            id: self.instance_id@,
            app_id: self.app_id@,
            active: self.status == ApplicationStatus::Active,
            context: context_view(self.context@),
            tools: strings_view(self.mounted_tools@),
        }
    }
}

/// Context for a follow-up conversation turn.
#[derive(Debug, Clone)]
pub struct FollowUpContext {
    /// The command that opened this follow-up window.
    pub last_command: String,
    /// Entity ids produced or changed by the last command.
    pub last_result_entity_ids: Vec<String>,
    /// The app that handled the last command.
    pub last_app_id: String,
    /// Unix time at which this follow-up expires.
    pub expires_at: u64,
    /// Follow-up turns consumed so far.
    pub turn_count: usize,
    /// Turns allowed in this follow-up window.
    pub max_turns: usize,
}

/// A follow-up context over plain values.
pub ghost struct FollowUpView {
    pub last_command: Seq<char>,
    pub entity_ids: Seq<Seq<char>>,
    pub last_app_id: Seq<char>,
    pub expires_at: u64,
    pub turn_count: usize,
    pub max_turns: usize,
}

impl View for FollowUpContext {
    type V = FollowUpView;

    open spec fn view(&self) -> FollowUpView {
        FollowUpView {
            last_command: self.last_command@,
            entity_ids: strings_view(self.last_result_entity_ids@),
            last_app_id: self.last_app_id@,
            expires_at: self.expires_at,
            turn_count: self.turn_count,
            max_turns: self.max_turns,
        }
    }
}

/// A pending confirmation request.
#[derive(Debug, Clone)]
pub struct ConfirmationPending {
    pub confirmation_id: String,
    pub tool_id: String,
    /// The tool's arguments, as JSON text.
    pub args: String,
    pub requested_at: u64,
}

/// A pending confirmation over plain values.
pub ghost struct ConfirmationView {
    pub confirmation_id: Seq<char>,
    pub tool_id: Seq<char>,
    pub args: Seq<char>,
    pub requested_at: u64,
}

impl View for ConfirmationPending {
    type V = ConfirmationView;

    open spec fn view(&self) -> ConfirmationView {
        ConfirmationView {
            confirmation_id: self.confirmation_id@,
            tool_id: self.tool_id@,
            args: self.args@,
            requested_at: self.requested_at,
        }
    }
}

/// The workspace: its application instances (ids distinct) and session metadata.
#[derive(Debug, Clone)]
pub struct Workspace {
    pub instances: Vec<ApplicationInstance>,
    pub focus: Option<String>,
    pub mode: WorkspaceMode,
    pub follow_up: Option<FollowUpContext>,
    pub confirmation_pending: Option<ConfirmationPending>,
    pub session_id: String,
    pub created_at: u64,
    pub last_modified: u64,
}

/// A workspace over plain values.
pub ghost struct WorkspaceView {
    pub instances: Seq<InstanceView>,
    pub focus: Option<Seq<char>>,
    pub mode: WorkspaceMode,
    pub follow_up: Option<FollowUpView>,
    pub confirmation: Option<ConfirmationView>,
    pub session_id: Seq<char>,
    pub created_at: u64,
    pub last_modified: u64,
}

/// The view of an optional string.
pub open spec fn opt_view(o: Option<String>) -> Option<Seq<char>> {
    match o {
        Some(s) => Some(s@),
        None => None,
    }
}

/// The view of an optional follow-up context.
pub open spec fn follow_up_view(o: Option<FollowUpContext>) -> Option<FollowUpView> {
    match o {
        Some(c) => Some(c@),
        None => None,
    }
}

/// The view of an optional pending confirmation.
pub open spec fn confirmation_view(o: Option<ConfirmationPending>) -> Option<ConfirmationView> {
    match o {
        Some(c) => Some(c@),
        None => None,
    }
}

/// The views of a list of instances.
pub open spec fn instances_view(v: Seq<ApplicationInstance>) -> Seq<InstanceView> {
    v.map_values(|i: ApplicationInstance| i@)
}

impl View for Workspace {
    type V = WorkspaceView;

    open spec fn view(&self) -> WorkspaceView {
        WorkspaceView {
            instances: instances_view(self.instances@),
            focus: opt_view(self.focus),
            mode: self.mode,
            follow_up: follow_up_view(self.follow_up),
            confirmation: confirmation_view(self.confirmation_pending),
            session_id: self.session_id@,
            created_at: self.created_at,
            last_modified: self.last_modified,
        }
    }
}

/// No two instances share an id.
pub open spec fn ids_distinct(s: Seq<InstanceView>) -> bool {
    forall|i: int, j: int| 0 <= i < j < s.len() ==> s[i].id != s[j].id
}

/// Index of the instance with id `id`, or -1.
pub open spec fn position(s: Seq<InstanceView>, id: Seq<char>) -> int
    decreases s.len(),
{
    if s.len() == 0 {
        -1
    } else if s[0].id == id {
        0
    } else {
        let p = position(s.drop_first(), id);
        if p < 0 {
            -1
        } else {
            p + 1
        }
    }
}

/// `position` is -1 exactly when no instance has the id, and otherwise the
/// first index of one that has it.
pub proof fn lemma_position(s: Seq<InstanceView>, id: Seq<char>)
    ensures
        -1 <= position(s, id) < s.len(),
        position(s, id) == -1 <==> (forall|k: int| 0 <= k < s.len() ==> s[k].id != id),
        position(s, id) >= 0 ==> s[position(s, id)].id == id && (forall|k: int|
            0 <= k < position(s, id) ==> s[k].id != id),
    decreases s.len(),
{
    if s.len() > 0 {
        lemma_position(s.drop_first(), id);
        if s[0].id != id {
            assert forall|k: int| 1 <= k < s.len() implies s[k].id == s.drop_first()[k - 1].id by {}
            if position(s.drop_first(), id) == -1 {
                assert forall|k: int| 0 <= k < s.len() implies s[k].id != id by {
                    if k > 0 {
                        assert(s.drop_first()[k - 1] == s[k]);
                    }
                }
            }
        }
    }
}

/// With distinct ids, the instance at index `i` is found by its id.
pub proof fn lemma_position_of_index(s: Seq<InstanceView>, i: int)
    requires
        ids_distinct(s),
        0 <= i < s.len(),
    ensures
        position(s, s[i].id) == i,
{
    lemma_position(s, s[i].id);
}

impl Workspace {
    /// Well-formed: instance ids are distinct.
    pub open spec fn wf(&self) -> bool {
        ids_distinct(self@.instances)
    }

    /// Creates an empty workspace for a session, stamped with the current time.
    pub fn new(session_id: String) -> (ws: Self)
        ensures
            ws.wf(),
            ws@.instances.len() == 0,
            ws@.focus is None,
            ws@.mode == WorkspaceMode::Idle,
            ws@.follow_up is None,
            ws@.confirmation is None,
            ws@.session_id == session_id@,
            ws@.created_at == ws@.last_modified,
    {
        let now = now_secs();
        Self::new_at(session_id, now)
    }

    /// Creates an empty workspace for a session at time `now`.
    pub fn new_at(session_id: String, now: u64) -> (ws: Self)
        ensures
            ws.wf(),
            ws@.instances.len() == 0,
            ws@.focus is None,
            ws@.mode == WorkspaceMode::Idle,
            ws@.follow_up is None,
            ws@.confirmation is None,
            ws@.session_id == session_id@,
            ws@.created_at == now,
            ws@.last_modified == now,
    {
        let ws = Workspace {
            instances: Vec::new(),
            focus: None,
            mode: WorkspaceMode::Idle,
            follow_up: None,
            confirmation_pending: None,
            session_id,
            created_at: now,
            last_modified: now,
        };
        assert(ws@.instances.len() == 0);
        ws
    }

    /// The instance with id `id`, if any.
    pub fn get_instance(&self, id: &str) -> (r: Option<&ApplicationInstance>)
        ensures
            r is None <==> position(self@.instances, id@) == -1,
            r matches Some(inst) ==> inst@ == self@.instances[position(self@.instances, id@)],
    {
        let key = id.to_owned();
        match find_instance(&self.instances, &key) {
            Some(i) => Some(&self.instances[i]),
            None => None,
        }
    }

    /// Whether an instance has id `id`.
    pub fn contains_instance(&self, id: &str) -> (r: bool)
        ensures
            r == (position(self@.instances, id@) >= 0),
    {
        let key = id.to_owned();
        find_instance(&self.instances, &key).is_some()
    }

    /// Number of instances.
    pub fn instance_count(&self) -> (r: usize)
        ensures
            r == self@.instances.len(),
    {
        self.instances.len()
    }

    /// A fresh instance id (a random UUID in hyphenated lowercase form).
    pub fn new_instance_id() -> (r: String)
        ensures
            uuid_text(r@),
    {
        new_uuid_string()
    }

    /// Clears the pending confirmation and returns to `Idle`.
    pub fn clear_confirmation(&mut self)
        ensures
            final(self)@ == (WorkspaceView {
                confirmation: None,
                mode: WorkspaceMode::Idle,
                ..old(self)@
            }),
    {
        self.confirmation_pending = None;
        self.mode = WorkspaceMode::Idle;
    }
}

/// Expiry time of a follow-up window opened at `now` (saturating at the
/// largest time).
pub open spec fn follow_up_expiry(now: u64) -> u64 {
    if now + FOLLOW_UP_TTL_SECS <= u64::MAX {
        (now + FOLLOW_UP_TTL_SECS) as u64
    } else {
        u64::MAX
    }
}

/// The workspace after entering follow-up mode at `now`.
pub open spec fn entered_follow_up(
    w: WorkspaceView,
    command: Seq<char>,
    entity_ids: Seq<Seq<char>>,
    app_id: Seq<char>,
    now: u64,
) -> WorkspaceView {
    WorkspaceView {
        follow_up: Some(
            FollowUpView {
                last_command: command,
                entity_ids: entity_ids,
                last_app_id: app_id,
                expires_at: follow_up_expiry(now),
                turn_count: 0,
                max_turns: FOLLOW_UP_MAX_TURNS,
            },
        ),
        mode: WorkspaceMode::FollowUpActive,
        last_modified: now,
        ..w
    }
}

/// The follow-up context exists, has not expired at `now`, and has turns left.
pub open spec fn follow_up_valid(w: WorkspaceView, now: u64) -> bool {
    match w.follow_up {
        Some(c) => now < c.expires_at && c.turn_count < c.max_turns,
        None => false,
    }
}

/// The workspace after its follow-up context expired at `now`.
pub open spec fn expired_follow_up(w: WorkspaceView, now: u64) -> WorkspaceView {
    WorkspaceView { follow_up: None, mode: WorkspaceMode::Idle, last_modified: now, ..w }
}

/// Consuming a follow-up turn at `now`: whether the context is still usable
/// afterwards, and the resulting workspace.
pub open spec fn consumed_turn(w: WorkspaceView, now: u64) -> (bool, WorkspaceView) {
    if !follow_up_valid(w, now) {
        (false, expired_follow_up(w, now))
    } else {
        let c = w.follow_up->0;
        if c.turn_count + 1 >= c.max_turns {
            (false, expired_follow_up(w, now))
        } else {
            (
                true,
                WorkspaceView {
                    follow_up: Some(FollowUpView { turn_count: (c.turn_count + 1) as usize, ..c }),
                    last_modified: now,
                    ..w
                },
            )
        }
    }
}

/// A follow-up window opened at `now` is usable exactly before its expiry;
/// within it, the first two turns keep it open and the third closes it,
/// returning the workspace to `Idle`.
pub proof fn law_follow_up_window(
    w: WorkspaceView,
    command: Seq<char>,
    entity_ids: Seq<Seq<char>>,
    app_id: Seq<char>,
    now: u64,
    t: u64,
)
    requires
        now + FOLLOW_UP_TTL_SECS <= u64::MAX,
    ensures
        ({
            let w1 = entered_follow_up(w, command, entity_ids, app_id, now);
            let (a, w2) = consumed_turn(w1, t);
            let (b, w3) = consumed_turn(w2, t);
            let (c, w4) = consumed_turn(w3, t);
            &&& follow_up_valid(w1, t) <==> t < now + FOLLOW_UP_TTL_SECS
            &&& t < now + FOLLOW_UP_TTL_SECS ==> a && b && !c && w4.follow_up is None && w4.mode
                == WorkspaceMode::Idle
        }),
{
}

impl Workspace {
    /// Enters follow-up mode after a successful command, at the current time.
    pub fn enter_follow_up(&mut self, command: String, entity_ids: Vec<String>, app_id: String)
        ensures
            final(self)@ == entered_follow_up(
                old(self)@,
                command@,
                strings_view(entity_ids@),
                app_id@,
                final(self)@.last_modified,
            ),
    {
        let now = now_secs();
        self.enter_follow_up_at(command, entity_ids, app_id, now);
    }

    /// Enters follow-up mode after a successful command, at time `now`: records
    /// the command, its entities and app, and opens a window of
    /// `FOLLOW_UP_TTL_SECS` seconds and `FOLLOW_UP_MAX_TURNS` turns.
    pub fn enter_follow_up_at(
        &mut self,
        command: String,
        entity_ids: Vec<String>,
        app_id: String,
        now: u64,
    )
        ensures
            final(self)@ == entered_follow_up(
                old(self)@,
                command@,
                strings_view(entity_ids@),
                app_id@,
                now,
            ),
    {
        let expires_at = now.saturating_add(FOLLOW_UP_TTL_SECS);
        self.follow_up = Some(
            FollowUpContext {
                last_command: command,
                last_result_entity_ids: entity_ids,
                last_app_id: app_id,
                expires_at,
                turn_count: 0,
                max_turns: FOLLOW_UP_MAX_TURNS,
            },
        );
        self.mode = WorkspaceMode::FollowUpActive;
        self.last_modified = now;
    }

    /// Whether the follow-up context is still usable at time `now`.
    pub fn is_follow_up_valid(&self, now: u64) -> (r: bool)
        ensures
            r == follow_up_valid(self@, now),
    {
        match &self.follow_up {
            Some(ctx) => now < ctx.expires_at && ctx.turn_count < ctx.max_turns,
            None => false,
        }
    }

    /// Consumes one follow-up turn at the current time; `true` if the context
    /// is still usable afterwards.
    pub fn consume_follow_up_turn(&mut self) -> (r: bool)
        ensures
            exists|now: u64| consumed_turn(old(self)@, now) == (r, final(self)@),
    {
        let now = now_secs();
        self.consume_follow_up_turn_at(now)
    }

    /// Consumes one follow-up turn at time `now`. An expired or absent context
    /// is cleared and `false` returned; using the last allowed turn also clears
    /// it and returns `false`.
    pub fn consume_follow_up_turn_at(&mut self, now: u64) -> (r: bool)
        ensures
            consumed_turn(old(self)@, now) == (r, final(self)@),
    {
        if !self.is_follow_up_valid(now) {
            self.expire_follow_up_at(now);
            return false;
        }
        let mut expire = false;
        if let Some(ctx) = &mut self.follow_up {
            ctx.turn_count = ctx.turn_count + 1;
            expire = ctx.turn_count >= ctx.max_turns;
        }
        self.last_modified = now;
        if expire {
            self.expire_follow_up_at(now);
            return false;
        }
        true
    }

    /// Expires the follow-up context at the current time and returns to `Idle`.
    pub fn expire_follow_up(&mut self)
        ensures
            final(self)@ == expired_follow_up(old(self)@, final(self)@.last_modified),
    {
        let now = now_secs();
        self.expire_follow_up_at(now);
    }

    /// Expires the follow-up context at time `now` and returns to `Idle`.
    pub fn expire_follow_up_at(&mut self, now: u64)
        ensures
            final(self)@ == expired_follow_up(old(self)@, now),
    {
        self.follow_up = None;
        self.mode = WorkspaceMode::Idle;
        self.last_modified = now;
    }
}

/// Index of the instance with id `id` among `instances`, if any.
pub fn find_instance(instances: &Vec<ApplicationInstance>, id: &String) -> (r: Option<usize>)
    ensures
        r is None <==> position(instances_view(instances@), id@) == -1,
        r matches Some(i) ==> i == position(instances_view(instances@), id@) && i
            < instances@.len(),
{
    let ghost s = instances_view(instances@);
    proof {
        lemma_position(s, id@);
    }
    let mut i: usize = 0;
    while i < instances.len()
        invariant
            s == instances_view(instances@),
            i <= instances@.len(),
            forall|k: int| 0 <= k < i ==> s[k].id != id@,
            -1 <= position(s, id@) < s.len(),
            position(s, id@) == -1 <==> (forall|k: int| 0 <= k < s.len() ==> s[k].id != id@),
            position(s, id@) >= 0 ==> s[position(s, id@)].id == id@ && (forall|k: int|
                0 <= k < position(s, id@) ==> s[k].id != id@),
        decreases instances@.len() - i,
    {
        if instances[i].instance_id == *id {
            assert(s[i as int].id == id@);
            return Some(i);
        }
        i = i + 1;
    }
    None
}

/// A copy of a list of strings.
pub fn copy_strings(v: &Vec<String>) -> (r: Vec<String>)
    ensures
        r@ == v@,
{
    let mut r: Vec<String> = Vec::new();
    let mut i: usize = 0;
    while i < v.len()
        invariant
            i <= v@.len(),
            r@ == v@.subrange(0, i as int),
        decreases v@.len() - i,
    {
        r.push(v[i].clone());
        i = i + 1;
    }
    assert(r@ =~= v@);
    r
}

/// A copy of an optional string.
fn copy_opt_string(o: &Option<String>) -> (r: Option<String>)
    ensures
        r == *o,
{
    match o {
        Some(s) => Some(s.clone()),
        None => None,
    }
}

impl ContextEntry {
    /// A copy of this entry.
    pub fn copy(&self) -> (r: ContextEntry)
        ensures
            r == *self,
    {
        let value = match &self.value {
            ContextValue::Text(s) => ContextValue::Text(s.clone()),
            ContextValue::Json(s) => ContextValue::Json(s.clone()),
        };
        ContextEntry { key: self.key.clone(), value }
    }
}

impl ApplicationInstance {
    /// A copy of this instance.
    pub fn copy(&self) -> (r: ApplicationInstance)
        ensures
            r@ == self@,
    {
        let mut context: Vec<ContextEntry> = Vec::new();
        let mut i: usize = 0;
        while i < self.context.len()
            invariant
                i <= self.context@.len(),
                context@ == self.context@.subrange(0, i as int),
            decreases self.context@.len() - i,
        {
            context.push(self.context[i].copy());
            i = i + 1;
        }
        assert(context@ =~= self.context@);
        ApplicationInstance {
            instance_id: self.instance_id.clone(),
            app_id: self.app_id.clone(),
            status: self.status,
            context,
            mounted_tools: copy_strings(&self.mounted_tools),
        }
    }
}

impl FollowUpContext {
    /// A copy of this context.
    pub fn copy(&self) -> (r: FollowUpContext)
        ensures
            r@ == self@,
    {
        FollowUpContext {
            last_command: self.last_command.clone(),
            last_result_entity_ids: copy_strings(&self.last_result_entity_ids),
            last_app_id: self.last_app_id.clone(),
            expires_at: self.expires_at,
            turn_count: self.turn_count,
            max_turns: self.max_turns,
        }
    }
}

impl ConfirmationPending {
    /// A copy of this request.
    pub fn copy(&self) -> (r: ConfirmationPending)
        ensures
            r == *self,
    {
        ConfirmationPending {
            confirmation_id: self.confirmation_id.clone(),
            tool_id: self.tool_id.clone(),
            args: self.args.clone(),
            requested_at: self.requested_at,
        }
    }
}

impl Workspace {
    /// A copy of the whole workspace, to restore after a failed change.
    pub fn snapshot(&self) -> (r: Workspace)
        ensures
            r@ == self@,
    {
        let mut instances: Vec<ApplicationInstance> = Vec::new();
        let mut i: usize = 0;
        while i < self.instances.len()
            invariant
                i <= self.instances@.len(),
                instances@.len() == i,
                forall|k: int| 0 <= k < i ==> instances@[k]@ == self.instances@[k]@,
            decreases self.instances@.len() - i,
        {
            instances.push(self.instances[i].copy());
            i = i + 1;
        }
        assert(instances_view(instances@) =~= instances_view(self.instances@));
        let follow_up = match &self.follow_up {
            Some(c) => Some(c.copy()),
            None => None,
        };
        let confirmation_pending = match &self.confirmation_pending {
            Some(c) => Some(c.copy()),
            None => None,
        };
        Workspace {
            instances,
            focus: copy_opt_string(&self.focus),
            mode: self.mode,
            follow_up,
            confirmation_pending,
            session_id: self.session_id.clone(),
            created_at: self.created_at,
            last_modified: self.last_modified,
        }
    }
}

/// Seconds since the Unix epoch, read from the system clock (0 before it).
#[verifier::external_body]
pub(crate) fn now_secs() -> u64 {
    std::time::SystemTime::now().duration_since(std::time::UNIX_EPOCH).unwrap_or_default().as_secs()
}

/// A lowercase hexadecimal digit.
pub open spec fn lower_hex_digit(c: char) -> bool {
    ('0' <= c && c <= '9') || ('a' <= c && c <= 'f')
}

/// The hyphenated lowercase text of a UUID: 36 characters, hyphens at
/// offsets 8, 13, 18 and 23, lowercase hexadecimal digits elsewhere.
pub open spec fn uuid_text(s: Seq<char>) -> bool {
    &&& s.len() == 36
    &&& forall|i: int| 0 <= i < 36 ==> (if i == 8 || i == 13 || i == 18 || i == 23 {
        s[i] == '-'
    } else {
        lower_hex_digit(#[trigger] s[i])
    })
}

/// A random (version 4) UUID in its hyphenated text form
/// (`uuid::Uuid::new_v4`, then `Display`, which writes the hyphenated
/// lowercase form). Which UUID comes back is chance; only its shape is
/// stated.
#[verifier::external_body]
fn new_uuid_string() -> (r: String)
    ensures
        uuid_text(r@),
{
    uuid::Uuid::new_v4().to_string()
}


/// The workspace configuration file in `dir`: `workspace.json`, joined as
/// `PathBuf::join` joins on Unix.
pub fn workspace_config_path(dir: &str) -> (r: String)
    ensures
        r@ == crate::query::path::join_path(dir@, "workspace.json"@),
{
    let joined = crate::query::path::join_chars(&crate::strings::chars_of(dir), &crate::strings::chars_of("workspace.json"));
    crate::strings::string_of(&joined)
}

} // verus!
