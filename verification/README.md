# Karukan

A Japanese input method. `src/` is its decision core: how kana are divided
into clauses, which candidates a clause has and in what order, what every key
does, how the models and dictionaries of the settings are put together, and how
the system dictionary is updated. All of it is verified with Verus.

`app/` is the program around it: a JSON-RPC server on standard input and
output, the models, the history, files and the network.

The core runs no model and reads no file. Where it needs something of the
kind for a key, it changes nothing and returns a question; the program finds
the answer and gives the key again. An update of the dictionary works the other
way round: the core says what is to be done next, and the program tells what
came of it.

| module | what it holds |
| --- | --- |
| `kana`, `text`, `lists` | characters, texts and lists |
| `spans`, `segmentation`, `alignment` | dividing readings and surfaces into clauses |
| `dictionary`, `advice`, `candidate`, `sources` | where candidates come from, and their lists |
| `preedit`, `state`, `action`, `keycode`, `settings` | what is on display, the state, keys and settings |
| `consult` | questions and answers |
| `engine`, `clauses`, `conversion`, `input`, `mode`, `model`, `init` | the engine |
| `coherence` | what holds of every conversion |
| `hash`, `archive`, `dictionary_update`, `updater` | updates of the system dictionary |
