use vstd::prelude::*;

verus! {

/// The keys that steer the interactive viewer.
#[derive(Debug, Clone, Copy, PartialEq, Eq, Structural)]
pub enum Key {
    /// Pause or resume the simulation.
    Space,
    /// Reset the camera and the simulation speed.
    R,
    /// Quit.
    Q,
    /// Zoom in by a factor of two.
    I,
    /// Zoom out by a factor of two.
    O,
    /// Fewer simulation steps per frame.
    BracketLeft,
    /// More simulation steps per frame.
    BracketRight,
    /// Any other key.
    Other,
}

/// The mouse buttons that steer the viewer.
#[derive(Debug, Clone, Copy, PartialEq, Eq, Structural)]
pub enum Button {
    /// Dragging with the left button pans the view.
    Left,
    /// Dragging with the right button rotates the view.
    Right,
    /// Any other button.
    Other,
}

/// What the viewer must do to the camera or the window after a key press.
#[derive(Debug, Clone, Copy, PartialEq, Eq, Structural)]
pub enum Command {
    /// Nothing beyond the change of the controls.
    Nothing,
    /// Put the camera back to its initial state.
    ResetCamera,
    /// Close the window.
    Exit,
    /// Multiply the camera's scale by two.
    ZoomIn,
    /// Multiply the camera's scale by one half.
    ZoomOut,
}

/// The viewer's interactive state.
#[derive(Debug, Clone, Copy, PartialEq, Eq, Structural)]
pub struct Controls {
    pub is_paused: bool,
    pub steps_per_frame: usize,
    pub is_left_clicked: bool,
    pub is_right_clicked: bool,
}

/// How many steps a bracket key adds or removes: ten with shift held, else one.
pub open spec fn speed_change(shift: bool) -> int {
    if shift {
        10
    } else {
        1
    }
}

/// The controls after `key` was pressed, with `shift` telling whether shift was held.
pub open spec fn after_key(c: Controls, key: Key, shift: bool) -> Controls {
    match key {
        Key::Space => Controls { is_paused: !c.is_paused, ..c },
        Key::R => Controls { steps_per_frame: 1, ..c },
        Key::BracketLeft => Controls {
            steps_per_frame: if c.steps_per_frame > speed_change(shift) {
                (c.steps_per_frame - speed_change(shift)) as usize
            } else {
                1
            },
            ..c
        },
        Key::BracketRight => Controls {
            steps_per_frame: (c.steps_per_frame + speed_change(shift)) as usize,
            ..c
        },
        _ => c,
    }
}

/// What the viewer must do after `key` was pressed.
pub open spec fn key_command(key: Key) -> Command {
    match key {
        Key::R => Command::ResetCamera,
        Key::Q => Command::Exit,
        Key::I => Command::ZoomIn,
        Key::O => Command::ZoomOut,
        _ => Command::Nothing,
    }
}

/// The controls after `button` was pressed (`pressed`) or released.
pub open spec fn after_button(c: Controls, button: Button, pressed: bool) -> Controls {
    match button {
        Button::Left => Controls { is_left_clicked: pressed, ..c },
        Button::Right => Controls { is_right_clicked: pressed, ..c },
        Button::Other => c,
    }
}

impl Controls {
    /// Running, with `steps_per_frame` simulation steps per frame and no button held.
    pub fn new(steps_per_frame: usize) -> (c: Controls)
        ensures
            c == (Controls {
                is_paused: false,
                steps_per_frame,
                is_left_clicked: false,
                is_right_clicked: false,
            }),
    {
        Controls { is_paused: false, steps_per_frame, is_left_clicked: false, is_right_clicked: false }
    }

    /// React to a key press: update the controls and say what the viewer must do.
    pub fn handle_key(&mut self, key: Key, shift: bool) -> (cmd: Command)
        requires
            key == Key::BracketRight ==> old(self).steps_per_frame + speed_change(shift) <= usize::MAX,
        ensures
            *final(self) == after_key(*old(self), key, shift),
            cmd == key_command(key),
            (cmd == Command::Exit) <==> (key == Key::Q),
            (cmd == Command::ResetCamera) <==> (key == Key::R),
            (cmd == Command::ZoomIn) <==> (key == Key::I),
            (cmd == Command::ZoomOut) <==> (key == Key::O),
            (cmd == Command::Nothing) <==> (key != Key::Q && key != Key::R && key != Key::I && key
                != Key::O),
            key == Key::Space ==> final(self).is_paused == !old(self).is_paused,
            key != Key::Space ==> final(self).is_paused == old(self).is_paused,
            key == Key::R ==> final(self).steps_per_frame == 1,
            key == Key::BracketLeft && !shift ==> final(self).steps_per_frame == (if old(
                self,
            ).steps_per_frame > 1 {
                old(self).steps_per_frame - 1
            } else {
                1
            }),
            key == Key::BracketLeft && shift ==> final(self).steps_per_frame == (if old(
                self,
            ).steps_per_frame > 10 {
                old(self).steps_per_frame - 10
            } else {
                1
            }),
            key == Key::BracketRight && !shift ==> final(self).steps_per_frame == old(self).steps_per_frame + 1,
            key == Key::BracketRight && shift ==> final(self).steps_per_frame == old(self).steps_per_frame + 10,
            key != Key::R && key != Key::BracketLeft && key != Key::BracketRight ==> final(self).steps_per_frame
                == old(self).steps_per_frame,
            final(self).is_left_clicked == old(self).is_left_clicked,
            final(self).is_right_clicked == old(self).is_right_clicked,
    {
        let amount: usize = if shift { 10 } else { 1 };
        match key {
            Key::Space => {
                self.is_paused = !self.is_paused;
                Command::Nothing
            },
            Key::R => {
                self.steps_per_frame = 1;
                Command::ResetCamera
            },
            Key::Q => Command::Exit,
            Key::I => Command::ZoomIn,
            Key::O => Command::ZoomOut,
            Key::BracketLeft => {
                if self.steps_per_frame > amount {
                    self.steps_per_frame = self.steps_per_frame - amount;
                } else {
                    self.steps_per_frame = 1;
                }
                Command::Nothing
            },
            Key::BracketRight => {
                self.steps_per_frame = self.steps_per_frame + amount;
                Command::Nothing
            },
            Key::Other => Command::Nothing,
        }
    }

    /// Track whether the left and right buttons are held.
    pub fn handle_mouse_button(&mut self, button: Button, pressed: bool)
        ensures
            *final(self) == after_button(*old(self), button, pressed),
            button == Button::Left ==> final(self).is_left_clicked == pressed,
            button != Button::Left ==> final(self).is_left_clicked == old(self).is_left_clicked,
            button == Button::Right ==> final(self).is_right_clicked == pressed,
            button != Button::Right ==> final(self).is_right_clicked == old(self).is_right_clicked,
            final(self).is_paused == old(self).is_paused,
            final(self).steps_per_frame == old(self).steps_per_frame,
    {
        match button {
            Button::Left => self.is_left_clicked = pressed,
            Button::Right => self.is_right_clicked = pressed,
            Button::Other => {},
        }
    }

    /// How many simulation steps to run before drawing the next frame: none while paused.
    pub fn steps_this_frame(&self) -> (n: usize)
        ensures
            n == (if self.is_paused {
                0
            } else {
                self.steps_per_frame
            }),
    {
        if self.is_paused {
            0
        } else {
            self.steps_per_frame
        }
    }
}

/// Counts the frames drawn since the frame rate was last reported.
#[derive(Debug, Clone, Copy, PartialEq, Eq, Structural)]
pub struct FrameCounter {
    pub frames: u64,
}

impl FrameCounter {
    /// No frames counted yet.
    pub fn new() -> (c: FrameCounter)
        ensures
            c.frames == 0,
    {
        FrameCounter { frames: 0 }
    }

    /// Count one more frame, drawn `secs_since_report` whole seconds after the last
    /// report. Once at least a second has passed the count so far is returned as the
    /// frame rate to report, and counting starts again from zero.
    pub fn on_frame(&mut self, secs_since_report: u64) -> (fps: Option<u64>)
        requires
            old(self).frames < u64::MAX,
        ensures
            secs_since_report >= 1 ==> fps == Some((old(self).frames + 1) as u64) && final(self).frames == 0,
            secs_since_report == 0 ==> fps.is_none() && final(self).frames == old(self).frames + 1,
    {
        self.frames = self.frames + 1;
        if secs_since_report >= 1 {
            let fps = self.frames;
            self.frames = 0;
            Some(fps)
        } else {
            None
        }
    }
}

/// Only Q quits, only R resets the camera, only I and O zoom; every other key, the
/// bracket keys and space included, asks the viewer for nothing.
pub proof fn lemma_key_commands(key: Key)
    ensures
        (key_command(key) == Command::Exit) <==> (key == Key::Q),
        (key_command(key) == Command::ResetCamera) <==> (key == Key::R),
        (key_command(key) == Command::ZoomIn) <==> (key == Key::I),
        (key_command(key) == Command::ZoomOut) <==> (key == Key::O),
        (key_command(key) == Command::Nothing) <==> (key != Key::Q && key != Key::R && key != Key::I
            && key != Key::O),
{
}

/// Slowing down takes one step per frame away, or ten with shift held, but never goes
/// below one: the result is `max(old - amount, 1)`, so a speed above one always drops.
pub proof fn lemma_slow_down(c: Controls, shift: bool)
    ensures
        ({
            let amount: int = if shift { 10 } else { 1 };
            let n = after_key(c, Key::BracketLeft, shift).steps_per_frame as int;
            &&& n >= 1
            &&& n >= c.steps_per_frame - amount
            &&& (n == 1 || n == c.steps_per_frame - amount)
            &&& (c.steps_per_frame <= amount ==> n == 1)
            &&& (c.steps_per_frame > 1 ==> n < c.steps_per_frame)
        }),
{
}

/// Speeding up adds one step per frame, or ten with shift held.
pub proof fn lemma_speed_up(c: Controls, shift: bool)
    requires
        c.steps_per_frame + 10 <= usize::MAX,
    ensures
        after_key(c, Key::BracketRight, false).steps_per_frame == c.steps_per_frame + 1,
        after_key(c, Key::BracketRight, true).steps_per_frame == c.steps_per_frame + 10,
{
}

/// After a press or release of the left or right button, that button's held flag is
/// whether it was pressed (a release clears it); nothing else changes.
pub proof fn lemma_button_flags(c: Controls, button: Button, pressed: bool)
    ensures
        button == Button::Left ==> after_button(c, button, pressed).is_left_clicked == pressed,
        button == Button::Right ==> after_button(c, button, pressed).is_right_clicked == pressed,
        button != Button::Left ==> after_button(c, button, pressed).is_left_clicked == c.is_left_clicked,
        button != Button::Right ==> after_button(c, button, pressed).is_right_clicked == c.is_right_clicked,
        after_button(c, button, pressed).is_paused == c.is_paused,
        after_button(c, button, pressed).steps_per_frame == c.steps_per_frame,
{
}

/// Pressing and then releasing a button leaves its held flag cleared, whatever it was.
pub proof fn lemma_press_release(c: Controls, button: Button)
    ensures
        !after_button(after_button(c, button, true), button, false).is_left_clicked || button != Button::Left,
        !after_button(after_button(c, button, true), button, false).is_right_clicked || button != Button::Right,
{
}

/// Pressing the space key twice leaves the controls as they were.
pub proof fn lemma_pause_twice(c: Controls, shift1: bool, shift2: bool)
    ensures
        after_key(after_key(c, Key::Space, shift1), Key::Space, shift2) == c,
{
}

/// Speeding up and then slowing down with the same modifier restores the speed,
/// when at least one step per frame was run before.
pub proof fn lemma_speed_up_then_down(c: Controls, shift: bool)
    requires
        c.steps_per_frame >= 1,
        c.steps_per_frame + speed_change(shift) <= usize::MAX,
    ensures
        after_key(after_key(c, Key::BracketRight, shift), Key::BracketLeft, shift) == c,
{
}

/// Slowing down never goes below one step per frame, and resetting sets it to one.
pub proof fn lemma_speed_at_least_one(c: Controls, shift: bool)
    ensures
        after_key(c, Key::BracketLeft, shift).steps_per_frame >= 1,
        after_key(c, Key::R, shift).steps_per_frame == 1,
{
}

/// Keys other than the bracket keys and the reset key leave the speed unchanged, and
/// only the space key changes whether the simulation is paused.
pub proof fn lemma_key_effects(c: Controls, key: Key, shift: bool)
    ensures
        key != Key::BracketLeft && key != Key::BracketRight && key != Key::R ==> after_key(
            c,
            key,
            shift,
        ).steps_per_frame == c.steps_per_frame,
        key != Key::Space ==> after_key(c, key, shift).is_paused == c.is_paused,
        after_key(c, key, shift).is_left_clicked == c.is_left_clicked,
        after_key(c, key, shift).is_right_clicked == c.is_right_clicked,
{
}

} // verus!
