//! Writing the settings of a model to a text, and reading them back.

use vstd::prelude::*;

use super::{BistableModel, ModelState};
use crate::numerics::Numerics;
use crate::objects::QCACellIndex;
use crate::settings::{BistableClockGeneratorSettings, BistableModelSettings, SettingsFormat};

verus! {

impl<S: Copy> ModelState<S> {
    /// What becomes of the model, and what it answers, when a text was read as these
    /// model settings: they are taken over. Where the text could not be read, the
    /// settings stay, and the reason is handed on.
    pub open spec fn takes_model_settings(
        self,
        parsed: Result<BistableModelSettings<S>, String>,
        after: ModelState<S>,
        answer: Result<(), String>,
    ) -> bool {
        match parsed {
            Ok(settings) => {
                &&& answer == Ok::<(), String>(())
                &&& after == (ModelState { model_settings: settings, ..self })
            },
            Err(reason) => {
                &&& answer == Err::<(), String>(reason)
                &&& after == self
            },
        }
    }

    /// What becomes of the model, and what it answers, when a text was read as these
    /// clock settings: they are taken over. Where the text could not be read, the
    /// settings stay, and the reason is handed on.
    pub open spec fn takes_clock_settings(
        self,
        parsed: Result<BistableClockGeneratorSettings<S>, String>,
        after: ModelState<S>,
        answer: Result<(), String>,
    ) -> bool {
        match parsed {
            Ok(settings) => {
                &&& answer == Ok::<(), String>(())
                &&& after == (ModelState { clock_settings: settings, ..self })
            },
            Err(reason) => {
                &&& answer == Err::<(), String>(reason)
                &&& after == self
            },
        }
    }
}

proof fn lemma_settings_do_not_matter_for_wf<S>(before: ModelState<S>, after: ModelState<S>)
    requires
        before.wf(),
        after == (ModelState {
            model_settings: after.model_settings,
            clock_settings: after.clock_settings,
            ..before
        }),
    ensures
        after.wf(),
{
    assert forall|index: QCACellIndex, t: int|
        after.neighborhoods.contains_key(index) && 0 <= t
            < after.neighborhoods[index].len() implies after.neighbor_fits(
        index,
        #[trigger] after.neighborhoods[index][t],
    ) by {
        assert(before.neighbor_fits(index, before.neighborhoods[index][t]));
    }
}

/// In this format `text` may be what is written for the model settings.
pub open spec fn writes_model_settings<S: Copy, F: SettingsFormat<S>>(
    format: F,
    settings: BistableModelSettings<S>,
    text: Result<String, String>,
) -> bool {
    call_ensures(F::write_model_settings, (&format, &settings), text)
}

/// In this format `text` may be read as `parsed`.
pub open spec fn reads_model_settings<S: Copy, F: SettingsFormat<S>>(
    format: F,
    text: String,
    parsed: Result<BistableModelSettings<S>, String>,
) -> bool {
    call_ensures(F::read_model_settings, (&format, &text), parsed)
}

/// In this format `text` may be what is written for the clock settings.
pub open spec fn writes_clock_settings<S: Copy, F: SettingsFormat<S>>(
    format: F,
    settings: BistableClockGeneratorSettings<S>,
    text: Result<String, String>,
) -> bool {
    call_ensures(F::write_clock_generator_settings, (&format, &settings), text)
}

/// In this format `text` may be read as `parsed`.
pub open spec fn reads_clock_settings<S: Copy, F: SettingsFormat<S>>(
    format: F,
    text: String,
    parsed: Result<BistableClockGeneratorSettings<S>, String>,
) -> bool {
    call_ensures(F::read_clock_generator_settings, (&format, &text), parsed)
}

impl<N: Numerics> BistableModel<N> {
    /// Takes over model settings that were read from a text.
    pub fn take_model_settings(
        &mut self,
        parsed: Result<BistableModelSettings<N::Scalar>, String>,
    ) -> (answer: Result<(), String>)
        requires
            old(self).wf(),
        ensures
            final(self).wf(),
            final(self).numerics() == old(self).numerics(),
            old(self)@.takes_model_settings(parsed, final(self)@, answer),
    {
        match parsed {
            Ok(settings) => {
                self.model_settings = settings;
                proof {
                    lemma_settings_do_not_matter_for_wf(old(self)@, self@);
                }
                Ok(())
            },
            Err(reason) => Err(reason),
        }
    }

    /// Takes over clock settings that were read from a text.
    pub fn take_clock_generator_settings(
        &mut self,
        parsed: Result<BistableClockGeneratorSettings<N::Scalar>, String>,
    ) -> (answer: Result<(), String>)
        requires
            old(self).wf(),
        ensures
            final(self).wf(),
            final(self).numerics() == old(self).numerics(),
            old(self)@.takes_clock_settings(parsed, final(self)@, answer),
    {
        match parsed {
            Ok(settings) => {
                self.clock_settings = settings;
                proof {
                    lemma_settings_do_not_matter_for_wf(old(self)@, self@);
                }
                Ok(())
            },
            Err(reason) => Err(reason),
        }
    }

    /// The model settings as a text.
    pub fn serialize_model_settings<F: SettingsFormat<N::Scalar>>(
        &self,
        format: &F,
    ) -> (text: Result<String, String>)
        ensures
            writes_model_settings(*format, self@.model_settings, text),
    {
        format.write_model_settings(&self.model_settings)
    }

    /// Takes over the model settings that a text stands for.
    pub fn deserialize_model_settings<F: SettingsFormat<N::Scalar>>(
        &mut self,
        format: &F,
        settings_str: &String,
    ) -> (answer: Result<(), String>)
        requires
            old(self).wf(),
        ensures
            final(self).wf(),
            final(self).numerics() == old(self).numerics(),
            exists|parsed: Result<BistableModelSettings<N::Scalar>, String>| #[trigger]
                reads_model_settings(*format, *settings_str, parsed)
                    && old(self)@.takes_model_settings(parsed, final(self)@, answer),
    {
        let parsed = format.read_model_settings(settings_str);
        assert(reads_model_settings(*format, *settings_str, parsed));
        self.take_model_settings(parsed)
    }

    /// The clock settings as a text.
    pub fn serialize_clock_generator_settings<F: SettingsFormat<N::Scalar>>(
        &self,
        format: &F,
    ) -> (text: Result<String, String>)
        ensures
            writes_clock_settings(*format, self@.clock_settings, text),
    {
        format.write_clock_generator_settings(&self.clock_settings)
    }

    /// Takes over the clock settings that a text stands for.
    pub fn deserialize_clock_generator_settings<F: SettingsFormat<N::Scalar>>(
        &mut self,
        format: &F,
        settings_str: &String,
    ) -> (answer: Result<(), String>)
        requires
            old(self).wf(),
        ensures
            final(self).wf(),
            final(self).numerics() == old(self).numerics(),
            exists|parsed: Result<BistableClockGeneratorSettings<N::Scalar>, String>| #[trigger]
                reads_clock_settings(*format, *settings_str, parsed)
                    && old(self)@.takes_clock_settings(parsed, final(self)@, answer),
    {
        let parsed = format.read_clock_generator_settings(settings_str);
        assert(reads_clock_settings(*format, *settings_str, parsed));
        self.take_clock_generator_settings(parsed)
    }
}

/// A format that reads back what it wrote carries the model settings from one model
/// to another.
pub proof fn model_settings_travel<S: Copy, F: SettingsFormat<S>>(
    format: F,
    sender: ModelState<S>,
    text: String,
    receiver: ModelState<S>,
    parsed: Result<BistableModelSettings<S>, String>,
    after: ModelState<S>,
    answer: Result<(), String>,
)
    requires
        forall|settings: BistableModelSettings<S>, written: String, read: Result<
            BistableModelSettings<S>,
            String,
        >|
            #![trigger writes_model_settings(format, settings, Ok(written)), reads_model_settings(format, written, read)]
            writes_model_settings(format, settings, Ok(written)) && reads_model_settings(
                format,
                written,
                read,
            ) ==> read == Ok::<BistableModelSettings<S>, String>(settings),
        writes_model_settings(format, sender.model_settings, Ok(text)),
        reads_model_settings(format, text, parsed),
        receiver.takes_model_settings(parsed, after, answer),
    ensures
        answer is Ok,
        after == (ModelState { model_settings: sender.model_settings, ..receiver }),
{
}

/// A format that reads back what it wrote carries the clock settings from one model
/// to another.
pub proof fn clock_settings_travel<S: Copy, F: SettingsFormat<S>>(
    format: F,
    sender: ModelState<S>,
    text: String,
    receiver: ModelState<S>,
    parsed: Result<BistableClockGeneratorSettings<S>, String>,
    after: ModelState<S>,
    answer: Result<(), String>,
)
    requires
        forall|settings: BistableClockGeneratorSettings<S>, written: String, read: Result<
            BistableClockGeneratorSettings<S>,
            String,
        >|
            #![trigger writes_clock_settings(format, settings, Ok(written)), reads_clock_settings(format, written, read)]
            writes_clock_settings(format, settings, Ok(written)) && reads_clock_settings(
                format,
                written,
                read,
            ) ==> read == Ok::<BistableClockGeneratorSettings<S>, String>(settings),
        writes_clock_settings(format, sender.clock_settings, Ok(text)),
        reads_clock_settings(format, text, parsed),
        receiver.takes_clock_settings(parsed, after, answer),
    ensures
        answer is Ok,
        after == (ModelState { clock_settings: sender.clock_settings, ..receiver }),
{
}

/// Where reading gives back what writing was given, settings come through unchanged: a
/// model that reads what another wrote has the model settings of the other, and is
/// otherwise what it was.
pub proof fn model_settings_come_through<S: Copy, F: SettingsFormat<S>>(
    format: F,
    sender: ModelState<S>,
    text: String,
    receiver: ModelState<S>,
    parsed: Result<BistableModelSettings<S>, String>,
    after: ModelState<S>,
    answer: Result<(), String>,
)
    requires
        forall|settings: BistableModelSettings<S>, written: String, read: Result<
            BistableModelSettings<S>,
            String,
        >|
            #[trigger] call_ensures(
                F::write_model_settings,
                (&format, &settings),
                Ok::<String, String>(written),
            ) && #[trigger] call_ensures(F::read_model_settings, (&format, &written), read)
                ==> read == Ok::<BistableModelSettings<S>, String>(settings),
        writes_model_settings(format, sender.model_settings, Ok(text)),
        reads_model_settings(format, text, parsed),
        receiver.takes_model_settings(parsed, after, answer),
    ensures
        answer == Ok::<(), String>(()),
        after.model_settings == sender.model_settings,
        after == (ModelState { model_settings: after.model_settings, ..receiver }),
{
}

/// Where reading gives back what writing was given, settings come through unchanged: a
/// model that reads what another wrote has the clock settings of the other, and is
/// otherwise what it was.
pub proof fn clock_settings_come_through<S: Copy, F: SettingsFormat<S>>(
    format: F,
    sender: ModelState<S>,
    text: String,
    receiver: ModelState<S>,
    parsed: Result<BistableClockGeneratorSettings<S>, String>,
    after: ModelState<S>,
    answer: Result<(), String>,
)
    requires
        forall|settings: BistableClockGeneratorSettings<S>, written: String, read: Result<
            BistableClockGeneratorSettings<S>,
            String,
        >|
            #[trigger] call_ensures(
                F::write_clock_generator_settings,
                (&format, &settings),
                Ok::<String, String>(written),
            ) && #[trigger] call_ensures(
                F::read_clock_generator_settings,
                (&format, &written),
                read,
            ) ==> read == Ok::<BistableClockGeneratorSettings<S>, String>(settings),
        writes_clock_settings(format, sender.clock_settings, Ok(text)),
        reads_clock_settings(format, text, parsed),
        receiver.takes_clock_settings(parsed, after, answer),
    ensures
        answer == Ok::<(), String>(()),
        after.clock_settings == sender.clock_settings,
        after == (ModelState { clock_settings: after.clock_settings, ..receiver }),
{
}

/// A text that cannot be read leaves a model as it was, and the model answers with the
/// reason that the reader gave.
pub proof fn unreadable_settings_change_nothing<S: Copy>(
    before: ModelState<S>,
    reason: String,
    after: ModelState<S>,
    answer: Result<(), String>,
)
    requires
        before.takes_model_settings(Err(reason), after, answer) || before.takes_clock_settings(
            Err(reason),
            after,
            answer,
        ),
    ensures
        after == before,
        answer == Err::<(), String>(reason),
{
}

} // verus!
